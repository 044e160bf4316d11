//! The output of an executed instruction, tagged as a success (`Ok`), a
//! failure (`Error`), or handed on as it is (`Just`).
use vstd::prelude::*;
use crate::codec::{canonical_encoding, decode, decode_val, encode};
use crate::value::{Val, Value, view_items, lemma_view_items};

verus! {

/// Resultant output of an executed instruction.
#[derive(Debug, PartialEq)]
pub enum InstructionResult<T> {
    /// Success.
    Success(T),
    /// Failure.
    Error(T),
    /// The value itself, neither unwrapped success nor failure.
    Just(T),
}

impl<T: View> View for InstructionResult<T> {
    type V = InstructionResult<T::V>;

    open spec fn view(&self) -> InstructionResult<T::V> {
        match self {
            InstructionResult::Success(x) => InstructionResult::Success(x@),
            InstructionResult::Error(x) => InstructionResult::Error(x@),
            InstructionResult::Just(x) => InstructionResult::Just(x@),
        }
    }
}

impl<T> InstructionResult<T> {
    /// The value inside, whatever the tag.
    pub open spec fn spec_inner(&self) -> T {
        match self {
            InstructionResult::Success(x) => *x,
            InstructionResult::Error(x) => *x,
            InstructionResult::Just(x) => *x,
        }
    }

    /// Owned, inner result of a task invocation.
    pub fn into_inner(self) -> (r: T)
        ensures
            r == self.spec_inner(),
    {
        match self {
            InstructionResult::Success(inner) => inner,
            InstructionResult::Error(inner) => inner,
            InstructionResult::Just(inner) => inner,
        }
    }

    /// Referenced, inner result of a task invocation.
    pub fn inner(&self) -> (r: &T)
        ensures
            *r == self.spec_inner(),
    {
        match self {
            InstructionResult::Success(inner) => inner,
            InstructionResult::Error(inner) => inner,
            InstructionResult::Just(inner) => inner,
        }
    }
}

/// Tag of a success.
pub open spec fn ok_tag() -> Seq<char> {
    seq!['o', 'k']
}

/// Tag of a failure.
pub open spec fn error_tag() -> Seq<char> {
    seq!['e', 'r', 'r', 'o', 'r']
}

/// Tag of a value handed on as it is.
pub open spec fn just_tag() -> Seq<char> {
    seq!['j', 'u', 's', 't']
}

/// A result as a value: the two-item list `[tag, value]`.
pub open spec fn result_to_val(r: InstructionResult<Val>) -> Val {
    let tag = match r {
        InstructionResult::Success(_) => ok_tag(),
        InstructionResult::Error(_) => error_tag(),
        InstructionResult::Just(_) => just_tag(),
    };
    Val::List(seq![Val::Text(tag), r.spec_inner()])
}

/// Why a value is not a result.
#[derive(Debug, Clone, Copy, PartialEq, Eq)]
pub enum ResultShapeError {
    /// The value is not a list.
    NotAList,
    /// The value is a list, but not a known tag followed by one value.
    UnexpectedShape,
}

/// The result that a value stands for, or why it stands for none.
pub open spec fn result_from_val(v: Val) -> Result<InstructionResult<Val>, ResultShapeError> {
    match v {
        Val::List(l) => if l.len() == 2 && l[0] is Text && l[0]->Text_0 == ok_tag() {
            Ok(InstructionResult::Success(l[1]))
        } else if l.len() == 2 && l[0] is Text && l[0]->Text_0 == error_tag() {
            Ok(InstructionResult::Error(l[1]))
        } else if l.len() == 2 && l[0] is Text && l[0]->Text_0 == just_tag() {
            Ok(InstructionResult::Just(l[1]))
        } else {
            Err(ResultShapeError::UnexpectedShape)
        },
        _ => Err(ResultShapeError::NotAList),
    }
}

/// Converting a result to a value and back gives the same result.
pub proof fn lemma_result_round_trip(r: InstructionResult<Val>)
    ensures
        result_from_val(result_to_val(r)) == Ok::<InstructionResult<Val>, ResultShapeError>(r),
{
    assert(ok_tag() != error_tag() && ok_tag() != just_tag() && error_tag() != just_tag()) by {
        assert(ok_tag().len() != error_tag().len());
        assert(ok_tag().len() != just_tag().len());
        assert(error_tag().len() != just_tag().len());
    }
}

/// The text of a tag.
fn tag_text(r: &InstructionResult<Value>) -> (t: String)
    ensures
        Val::Text(t@) == result_to_val(r@)->List_0[0],
{
    proof {
        reveal_strlit("ok");
        reveal_strlit("error");
        reveal_strlit("just");
        assert("ok"@ =~= ok_tag());
        assert("error"@ =~= error_tag());
        assert("just"@ =~= just_tag());
    }
    match r {
        InstructionResult::Success(_) => "ok".to_owned(),
        InstructionResult::Error(_) => "error".to_owned(),
        InstructionResult::Just(_) => "just".to_owned(),
    }
}

impl InstructionResult<Value> {
    /// A copy of this result.
    pub fn copy(&self) -> (r: InstructionResult<Value>)
        ensures
            r@ == self@,
    {
        match self {
            InstructionResult::Success(x) => InstructionResult::Success(x.copy()),
            InstructionResult::Error(x) => InstructionResult::Error(x.copy()),
            InstructionResult::Just(x) => InstructionResult::Just(x.copy()),
        }
    }

    /// This result as a value, `[tag, value]`.
    pub fn to_value(self) -> (r: Value)
        ensures
            r@ == result_to_val(self@),
    {
        let tag = tag_text(&self);
        let inner = self.into_inner();
        let ghost iv = inner@;
        let mut items: Vec<Value> = Vec::new();
        items.push(Value::Text(tag));
        items.push(inner);
        proof {
            lemma_view_items(items@);
            assert(view_items(items@) =~= seq![Val::Text(tag@), iv]);
        }
        Value::List(items)
    }

    /// The stored form of this result: the encoding of `[tag, value]`.
    pub fn to_bytes(self) -> (r: Vec<u8>)
        ensures
            r@ == canonical_encoding(result_to_val(self@)),
            decode_val(r@) == Some(crate::codec::norm(result_to_val(self@))),
    {
        encode(&self.to_value())
    }

    /// The result whose stored form is `bytes`, if any.
    pub fn from_bytes(bytes: &[u8]) -> (r: Option<InstructionResult<Value>>)
        ensures
            match r {
                Some(x) => decode_val(bytes@) matches Some(v) && result_from_val(v) == Ok::<
                    InstructionResult<Val>,
                    ResultShapeError,
                >(x@),
                None => decode_val(bytes@) is None || result_from_val(decode_val(bytes@)->Some_0) is Err,
            },
    {
        match decode(bytes) {
            Ok(v) => match InstructionResult::try_from_value(v) {
                Ok(x) => Some(x),
                Err(_) => None,
            },
            Err(_) => None,
        }
    }

    /// The result that a value stands for.
    pub fn try_from_value(v: Value) -> (r: Result<InstructionResult<Value>, ResultShapeError>)
        ensures
            match r {
                Ok(x) => result_from_val(v@) == Ok::<InstructionResult<Val>, ResultShapeError>(x@),
                Err(e) => result_from_val(v@) == Err::<InstructionResult<Val>, ResultShapeError>(e),
            },
    {
        proof {
            reveal_strlit("ok");
            reveal_strlit("error");
            reveal_strlit("just");
            assert("ok"@ =~= ok_tag());
            assert("error"@ =~= error_tag());
            assert("just"@ =~= just_tag());
        }
        match v {
            Value::List(mut items) => {
                proof {
                    lemma_view_items(items@);
                }
                if items.len() != 2 {
                    return Err(ResultShapeError::UnexpectedShape);
                }
                let second = items.pop().unwrap();
                let first = items.pop().unwrap();
                match first {
                    Value::Text(t) => {
                        if t == "ok".to_owned() {
                            Ok(InstructionResult::Success(second))
                        } else if t == "error".to_owned() {
                            Ok(InstructionResult::Error(second))
                        } else if t == "just".to_owned() {
                            Ok(InstructionResult::Just(second))
                        } else {
                            Err(ResultShapeError::UnexpectedShape)
                        }
                    },
                    _ => Err(ResultShapeError::UnexpectedShape),
                }
            },
            _ => Err(ResultShapeError::NotAList),
        }
    }
}

} // verus!
