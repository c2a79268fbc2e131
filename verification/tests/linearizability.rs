use todc::linearizability::history::Action::{Call, Response};
use todc::linearizability::history::History;
use todc::linearizability::{Specification, WLGChecker};

#[derive(Copy, Clone, Debug)]
enum RegisterOp {
    WriteCall(usize),
    ReadCall,
    ReadResp(usize),
    WriteResp(usize),
}

use RegisterOp::{ReadCall, ReadResp, WriteCall, WriteResp};

struct IntegerRegisterSpec {}

impl Specification for IntegerRegisterSpec {
    type State = usize;
    type Op = RegisterOp;

    fn init(&self) -> Self::State {
        0
    }

    fn apply(&self, call: &Self::Op, response: &Self::Op, state: &Self::State) -> (bool, Self::State) {
        match call {
            WriteCall(c_value) => match response {
                WriteResp(r_value) => {
                    let valid = c_value == r_value;
                    (valid, if valid { *c_value } else { *state })
                }
                _ => (false, *state),
            },
            ReadCall => match response {
                ReadResp(value) => (value == state, *state),
                _ => (false, *state),
            },
            _ => (false, *state),
        }
    }
}

#[test]
fn accepts_sequential_read_and_write() {
    let checker = WLGChecker {
        spec: IntegerRegisterSpec {},
    };
    let history = History::from_actions(vec![
        (0, Call(WriteCall(1))),
        (0, Response(WriteResp(1))),
        (0, Call(ReadCall)),
        (0, Response(ReadResp(1))),
    ]);
    assert!(checker.is_linearizable(history));
}

#[test]
fn rejects_invalid_reads() {
    let checker = WLGChecker {
        spec: IntegerRegisterSpec {},
    };
    let history = History::from_actions(vec![
        (0, Call(WriteCall(1))),
        (0, Response(WriteResp(1))),
        (0, Call(ReadCall)),
        (0, Response(ReadResp(2))),
    ]);
    assert!(!checker.is_linearizable(history));
}

#[test]
fn accepts_writes_in_reverse_order() {
    // P0 |--------------------| Write(1)
    // P1 |--------------------| Write(2)
    // P2 |--------------------| Write(3)
    // P3   |--|                 Read(3)
    // P3          |--|          Read(2)
    // P3                 |--|   Read(1)
    let checker = WLGChecker {
        spec: IntegerRegisterSpec {},
    };
    let history = History::from_actions(vec![
        (0, Call(WriteCall(1))),
        (1, Call(WriteCall(2))),
        (2, Call(WriteCall(3))),
        (3, Call(ReadCall)),
        (3, Response(ReadResp(3))),
        (3, Call(ReadCall)),
        (3, Response(ReadResp(2))),
        (3, Call(ReadCall)),
        (3, Response(ReadResp(1))),
        (0, Response(WriteResp(1))),
        (1, Response(WriteResp(2))),
        (2, Response(WriteResp(3))),
    ]);
    assert!(checker.is_linearizable(history));
}

#[test]
fn rejects_sequentially_consistent_reads() {
    // P0 |-------------------| Write(1)
    // P1      |--|             Read(1)
    // P2              |--|     Read(0)
    let checker = WLGChecker {
        spec: IntegerRegisterSpec {},
    };
    let history = History::from_actions(vec![
        (0, Call(WriteCall(1))),
        (1, Call(ReadCall)),
        (1, Response(ReadResp(1))),
        (2, Call(ReadCall)),
        (2, Response(ReadResp(0))),
        (0, Response(WriteResp(1))),
    ]);
    assert!(!checker.is_linearizable(history));
}

#[test]
fn accepts_empty_history_of_one_pending_pair() {
    let checker = WLGChecker {
        spec: IntegerRegisterSpec {},
    };
    let history = History::from_actions(vec![(0, Call(ReadCall)), (0, Response(ReadResp(0)))]);
    assert!(checker.is_linearizable(history));
}

#[test]
fn rejects_read_of_value_never_written() {
    let checker = WLGChecker {
        spec: IntegerRegisterSpec {},
    };
    let history = History::from_actions(vec![
        (0, Call(WriteCall(5))),
        (1, Call(ReadCall)),
        (0, Response(WriteResp(5))),
        (1, Response(ReadResp(7))),
    ]);
    assert!(!checker.is_linearizable(history));
}

#[test]
fn accepts_concurrent_read_of_old_or_new_value() {
    let checker = WLGChecker {
        spec: IntegerRegisterSpec {},
    };
    for value in [0, 5] {
        let history = History::from_actions(vec![
            (0, Call(WriteCall(5))),
            (1, Call(ReadCall)),
            (1, Response(ReadResp(value))),
            (0, Response(WriteResp(5))),
        ]);
        assert!(checker.is_linearizable(history));
    }
}
