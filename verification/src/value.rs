//! The tagged union of server replies.

use vstd::prelude::*;

verus! {

/// One decoded server reply.
///
/// A reply beginning with `-` (a server-side error) is never represented
/// here: the decoder surfaces it as an error instead, so a `Value` always
/// stands for a successful reply. By design arrays never nest: an `Array`
/// element is itself one of the scalar variants, and the decoder rejects a
/// nested array as a framing violation rather than mis-parsing it.
#[derive(Debug, PartialEq, Eq)]
pub enum Value {
    /// A `+` reply: the rest of the line.
    SimpleString(Vec<u8>),
    /// A `:` reply: a base-10 signed integer.
    Integer(i64),
    /// A `$-1` reply: the absent value.
    Nil,
    /// A `$` reply: a length-prefixed byte string.
    BulkString(Vec<u8>),
    /// A `*` reply: a list of non-array values.
    Array(Vec<Value>),
}

/// The mathematical model of a `Value`.
pub enum ValueModel {
    SimpleString(Seq<u8>),
    Integer(int),
    Nil,
    BulkString(Seq<u8>),
    Array(Seq<ValueModel>),
}

impl Value {
    /// The model this value stands for.
    pub open spec fn view(self) -> ValueModel
        decreases self,
    {
        match self {
            Value::SimpleString(s) => ValueModel::SimpleString(s@),
            Value::Integer(i) => ValueModel::Integer(i as int),
            Value::Nil => ValueModel::Nil,
            Value::BulkString(s) => ValueModel::BulkString(s@),
            Value::Array(items) => ValueModel::Array(Value::views(items@)),
        }
    }

    /// The models of a sequence of values, in order.
    pub open spec fn views(s: Seq<Value>) -> Seq<ValueModel>
        decreases s,
    {
        if s.len() == 0 {
            Seq::empty()
        } else {
            Value::views(s.drop_last()).push(s.last().view())
        }
    }
}

/// `Value::views` maps the view over the sequence element by element.
pub proof fn lemma_views_index(s: Seq<Value>)
    ensures
        Value::views(s).len() == s.len(),
        forall|i: int| 0 <= i < s.len() ==> Value::views(s)[i] == #[trigger] s[i].view(),
    decreases s,
{
    if s.len() > 0 {
        lemma_views_index(s.drop_last());
        assert forall|i: int| 0 <= i < s.len() implies Value::views(s)[i] == #[trigger] s[i].view() by {
            if i < s.len() - 1 {
                assert(s.drop_last()[i] == s[i]);
            }
        }
    }
}

} // verus!
