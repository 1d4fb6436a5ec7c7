//! What a connection does with a frame that it has read: the decision,
//! apart from the sockets and the shared store that carry it out.

use vstd::prelude::*;
use vstd::slice::slice_to_vec;
use crate::model::ValueModel;
use crate::scalar::{is_word, spells};
use crate::value::{models, Value};

verus! {

/// What to do with a frame.
#[derive(Debug)]
pub enum Action {
    /// Record the value under the key in the shared store, and reply
    /// that it was done.
    Store { key: Vec<u8>, value: Vec<u8> },
    /// Reply that the command is not supported.
    NotSupported,
    /// The frame is no command: reply nothing.
    Ignore,
}

/// An action, apart from how its bytes are stored.
pub enum ActionModel {
    Store { key: Seq<u8>, value: Seq<u8> },
    NotSupported,
    Ignore,
}

impl View for Action {
    type V = ActionModel;

    open spec fn view(&self) -> ActionModel {
        match *self {
            Action::Store { key, value } => ActionModel::Store { key: key@, value: value@ },
            Action::NotSupported => ActionModel::NotSupported,
            Action::Ignore => ActionModel::Ignore,
        }
    }
}

/// The operator `set`, in lower case.
pub open spec fn word_set() -> Seq<u8> {
    seq![115u8, 101u8, 116u8]
}

/// The status `OK`.
pub open spec fn text_ok() -> Seq<u8> {
    seq![79u8, 75u8]
}

/// The status `not supported`.
pub open spec fn text_not_supported() -> Seq<u8> {
    seq![110u8, 111u8, 116u8, 32u8, 115u8, 117u8, 112u8, 112u8, 111u8, 114u8, 116u8, 101u8, 100u8]
}

/// What to do with a frame. An array whose first element is a blob is a
/// command, and that blob is its operator, in any mix of cases: `SET`
/// with a key and a value, both blobs, is recorded; every other command
/// is not supported. Any other frame is ignored.
pub open spec fn decision(m: ValueModel) -> ActionModel {
    match m {
        ValueModel::Array(a) => if a.len() > 0 && a[0] is Blob {
            if is_word(a[0]->Blob_0, word_set()) && a.len() >= 3 && a[1] is Blob && a[2] is Blob {
                ActionModel::Store { key: a[1]->Blob_0, value: a[2]->Blob_0 }
            } else {
                ActionModel::NotSupported
            }
        } else {
            ActionModel::Ignore
        },
        _ => ActionModel::Ignore,
    }
}

/// The reply that an action owes to the client, where it owes one.
pub open spec fn reply_of(a: ActionModel) -> Option<ValueModel> {
    match a {
        ActionModel::Store { .. } => Some(ValueModel::String(text_ok())),
        ActionModel::NotSupported => Some(ValueModel::String(text_not_supported())),
        ActionModel::Ignore => None,
    }
}

/// Decides what to do with a frame that was read from a client.
pub fn handle(frame: &Value) -> (r: Action)
    ensures
        r@ == decision(frame@),
{
    match frame {
        Value::Array(a) => {
            if a.len() == 0 {
                return Action::Ignore;
            }
            assert(models(*a)[0] == a[0]@);
            match &a[0] {
                Value::Blob(op) => {
                    let set: Vec<u8> = vec![115u8, 101u8, 116u8];
                    assert(set@ =~= word_set());
                    if !spells(op.as_slice(), set.as_slice()) || a.len() < 3 {
                        return Action::NotSupported;
                    }
                    assert(models(*a)[1] == a[1]@);
                    assert(models(*a)[2] == a[2]@);
                    match (&a[1], &a[2]) {
                        (Value::Blob(k), Value::Blob(v)) => Action::Store {
                            key: slice_to_vec(k.as_slice()),
                            value: slice_to_vec(v.as_slice()),
                        },
                        _ => Action::NotSupported,
                    }
                },
                _ => Action::Ignore,
            }
        },
        _ => Action::Ignore,
    }
}

impl Action {
    /// The reply that the action owes to the client, where it owes one.
    pub fn reply(&self) -> (r: Option<Value>)
        ensures
            match reply_of(self@) {
                Some(m) => r matches Some(v) && v@ == m,
                None => r.is_none(),
            },
    {
        match self {
            Action::Store { .. } => {
                let text: Vec<u8> = vec![79u8, 75u8];
                assert(text@ =~= text_ok());
                Some(Value::String(text))
            },
            Action::NotSupported => {
                let text: Vec<u8> = vec![
                    110u8,
                    111u8,
                    116u8,
                    32u8,
                    115u8,
                    117u8,
                    112u8,
                    112u8,
                    111u8,
                    114u8,
                    116u8,
                    101u8,
                    100u8,
                ];
                assert(text@ =~= text_not_supported());
                Some(Value::String(text))
            },
            Action::Ignore => None,
        }
    }
}

} // verus!
