//! Receipts: the content-addressed record of an invocation's outcome, with
//! the instruction it answers, and their capsule form.
use vstd::prelude::*;
use crate::cid::{Cid, MAX_CID_LEN, cid_of_encoding};
use crate::codec::{canonical_encoding, encode};
use crate::instruction_result::{InstructionResult, result_to_val, result_from_val};
use crate::value::{Val, Value, view_items, view_entries, lemma_view_items, lemma_view_entries};

verus! {

pub open spec fn key_instruction() -> Seq<char> {
    seq!['i', 'n', 's', 't', 'r', 'u', 'c', 't', 'i', 'o', 'n']
}

pub open spec fn key_iss() -> Seq<char> {
    seq!['i', 's', 's']
}

pub open spec fn key_meta() -> Seq<char> {
    seq!['m', 'e', 't', 'a']
}

pub open spec fn key_out() -> Seq<char> {
    seq!['o', 'u', 't']
}

pub open spec fn key_prf() -> Seq<char> {
    seq!['p', 'r', 'f']
}

pub open spec fn key_ran() -> Seq<char> {
    seq!['r', 'a', 'n']
}

/// Capsule tag of a receipt.
pub open spec fn receipt_tag() -> Seq<char> {
    seq!['r', 'e', 'c', 'e', 'i', 'p', 't']
}

/// Links to the given identifiers.
pub open spec fn links_val(cids: Seq<Seq<u8>>) -> Seq<Val> {
    Seq::new(cids.len(), |i: int| Val::Link(cids[i]))
}

/// Mathematical form of a receipt.
pub struct ReceiptModel {
    pub instruction: Seq<u8>,
    pub ran: Seq<u8>,
    pub out: InstructionResult<Val>,
    pub meta: Val,
    pub issuer: Option<Seq<char>>,
    pub prf: Seq<Seq<u8>>,
}

/// A receipt: the invocation that ran, its output, metadata, an optional
/// issuer and proofs, together with the instruction it answers.
#[derive(Debug)]
pub struct Receipt {
    pub instruction: Cid,
    pub ran: Cid,
    pub out: InstructionResult<Value>,
    pub meta: Value,
    pub issuer: Option<String>,
    pub prf: Vec<Cid>,
}

/// The identifiers of a list of identifiers.
pub open spec fn cids_view(c: Seq<Cid>) -> Seq<Seq<u8>> {
    Seq::new(c.len(), |i: int| c[i]@)
}

impl View for Receipt {
    type V = ReceiptModel;

    open spec fn view(&self) -> ReceiptModel {
        ReceiptModel {
            instruction: self.instruction@,
            ran: self.ran@,
            out: self.out@,
            meta: self.meta@,
            issuer: match self.issuer {
                Some(s) => Some(s@),
                None => None,
            },
            prf: cids_view(self.prf@),
        }
    }
}

/// The issuer as a value.
pub open spec fn issuer_val(issuer: Option<Seq<char>>) -> Val {
    match issuer {
        Some(s) => Val::Text(s),
        None => Val::Null,
    }
}

/// Entries of the invocation receipt, in key order.
pub open spec fn invocation_entries(m: ReceiptModel) -> Seq<(Seq<char>, Val)> {
    seq![
        (key_iss(), issuer_val(m.issuer)),
        (key_meta(), m.meta),
        (key_out(), result_to_val(m.out)),
        (key_prf(), Val::List(links_val(m.prf))),
        (key_ran(), Val::Link(m.ran)),
    ]
}

/// The invocation receipt as a value; its encoding names the receipt.
pub open spec fn invocation_val(m: ReceiptModel) -> Val {
    Val::Dict(invocation_entries(m))
}

/// The receipt's own identifier.
pub open spec fn receipt_cid(m: ReceiptModel) -> Seq<u8> {
    cid_of_encoding(canonical_encoding(invocation_val(m)))
}

/// The receipt with its instruction, as a value.
pub open spec fn record_val(m: ReceiptModel) -> Val {
    Val::Dict(seq![(key_instruction(), Val::Link(m.instruction))] + invocation_entries(m))
}

/// The targets of a list of links.
pub open spec fn link_targets(l: Seq<Val>) -> Seq<Seq<u8>> {
    Seq::new(l.len(), |i: int| l[i]->Link_0)
}

/// The identifiers that a list of links names, if every item is a link.
pub open spec fn links_from_val(l: Seq<Val>) -> Option<Seq<Seq<u8>>> {
    if forall|i: int| 0 <= i < l.len() ==> (#[trigger] l[i]) is Link {
        Some(link_targets(l))
    } else {
        None
    }
}

/// The receipt that a value stands for, if any.
pub open spec fn receipt_from_val(v: Val) -> Option<ReceiptModel> {
    match v {
        Val::Dict(d) => if d.len() == 6 && d[0].0 == key_instruction() && d[1].0 == key_iss()
            && d[2].0 == key_meta() && d[3].0 == key_out() && d[4].0 == key_prf() && d[5].0
            == key_ran() && d[0].1 is Link && (d[1].1 is Null || d[1].1 is Text) && result_from_val(
            d[3].1,
        ) is Ok && d[4].1 is List && links_from_val(d[4].1->List_0) is Some && d[5].1 is Link {
            Some(
                ReceiptModel {
                    instruction: d[0].1->Link_0,
                    ran: d[5].1->Link_0,
                    out: result_from_val(d[3].1)->Ok_0,
                    meta: d[2].1,
                    issuer: if d[1].1 is Text {
                        Some(d[1].1->Text_0)
                    } else {
                        None
                    },
                    prf: links_from_val(d[4].1->List_0)->Some_0,
                },
            )
        } else {
            None
        },
        _ => None,
    }
}

/// A text holding the given characters.
pub(crate) fn text(s: &str) -> (r: String)
    ensures
        r@ == s@,
{
    s.to_owned()
}

/// Links to the given identifiers, as a value.
pub fn links_value(cids: &Vec<Cid>) -> (r: Value)
    ensures
        r@ == Val::List(links_val(cids_view(cids@))),
{
    let mut items: Vec<Value> = Vec::new();
    let mut i: usize = 0;
    proof {
        lemma_view_items(items@);
    }
    while i < cids.len()
        invariant
            i <= cids@.len(),
            items@.len() == i,
            forall|j: int| 0 <= j < i ==> (#[trigger] items@[j])@ == Val::Link(cids@[j]@),
        decreases cids@.len() - i,
    {
        items.push(Value::Link(cids[i].clone()));
        i = i + 1;
    }
    proof {
        lemma_view_items(items@);
        assert(view_items(items@) =~= links_val(cids_view(cids@)));
    }
    Value::List(items)
}

/// The identifiers that a list of links names, if every item is a link.
pub fn links_from_value(l: &Vec<Value>) -> (r: Option<Vec<Cid>>)
    ensures
        match r {
            Some(c) => links_from_val(view_items(l@)) == Some(cids_view(c@)),
            None => links_from_val(view_items(l@)) is None,
        },
{
    proof {
        lemma_view_items(l@);
    }
    let ghost lv = view_items(l@);
    let mut out: Vec<Cid> = Vec::new();
    let mut i: usize = 0;
    while i < l.len()
        invariant
            lv == view_items(l@),
            lv.len() == l@.len(),
            forall|j: int| 0 <= j < l@.len() ==> #[trigger] lv[j] == l@[j]@,
            i <= l@.len(),
            out@.len() == i,
            forall|j: int| 0 <= j < i ==> lv[j] == Val::Link((#[trigger] out@[j])@),
        decreases l@.len() - i,
    {
        match &l[i] {
            Value::Link(c) => {
                assert(lv[i as int] == Val::Link(c@));
                let c2 = c.clone();
                let ghost before = out@;
                out.push(c2);
                assert(out@[i as int]@ == c@);
                assert forall|j: int| 0 <= j < i + 1 implies lv[j] == Val::Link((#[trigger] out@[j])@) by {
                    if j < i {
                        assert(out@[j] == before[j]);
                    }
                }
            },
            _ => {
                assert(!(lv[i as int] is Link));
                return None;
            },
        }
        i = i + 1;
    }
    assert forall|j: int| 0 <= j < lv.len() implies (#[trigger] lv[j]) is Link by {
        assert(lv[j] == Val::Link(out@[j]@));
    }
    assert(cids_view(out@) =~= link_targets(lv)) by {
        assert forall|j: int| 0 <= j < lv.len() implies #[trigger] cids_view(out@)[j] == link_targets(lv)[j] by {
            assert(lv[j] == Val::Link(out@[j]@));
        }
    }
    Some(out)
}

/// A copy of a list of identifiers.
pub fn copy_cids(c: &Vec<Cid>) -> (r: Vec<Cid>)
    ensures
        cids_view(r@) == cids_view(c@),
{
    let mut out: Vec<Cid> = Vec::new();
    let mut i: usize = 0;
    while i < c.len()
        invariant
            i <= c@.len(),
            out@.len() == i,
            forall|j: int| 0 <= j < i ==> (#[trigger] out@[j])@ == c@[j]@,
        decreases c@.len() - i,
    {
        out.push(c[i].clone());
        i = i + 1;
    }
    assert(cids_view(out@) =~= cids_view(c@));
    out
}

impl Receipt {
    /// A copy of this receipt.
    pub fn copy(&self) -> (r: Receipt)
        ensures
            r@ == self@,
    {
        Receipt {
            instruction: self.instruction.clone(),
            ran: self.ran.clone(),
            out: self.out.copy(),
            meta: self.meta.copy(),
            issuer: match &self.issuer {
                Some(s) => Some(s.clone()),
                None => None,
            },
            prf: copy_cids(&self.prf),
        }
    }

    /// The invocation receipt as a value.
    pub fn invocation_value(&self) -> (r: Value)
        ensures
            r@ == invocation_val(self@),
    {
        let mut entries: Vec<(String, Value)> = Vec::new();
        let iss = match &self.issuer {
            Some(s) => Value::Text(s.clone()),
            None => Value::Null,
        };
        entries.push((text("iss"), iss));
        entries.push((text("meta"), self.meta.copy()));
        entries.push((text("out"), self.out.copy().to_value()));
        entries.push((text("prf"), links_value(&self.prf)));
        entries.push((text("ran"), Value::Link(self.ran.clone())));
        proof {
            reveal_strlit("iss");
            reveal_strlit("meta");
            reveal_strlit("out");
            reveal_strlit("prf");
            reveal_strlit("ran");
            assert("iss"@ =~= key_iss());
            assert("meta"@ =~= key_meta());
            assert("out"@ =~= key_out());
            assert("prf"@ =~= key_prf());
            assert("ran"@ =~= key_ran());
            lemma_view_entries(entries@);
            assert(view_entries(entries@) =~= invocation_entries(self@));
        }
        Value::Dict(entries)
    }

    /// The receipt, with its instruction, as a value.
    pub fn record_value(&self) -> (r: Value)
        ensures
            r@ == record_val(self@),
    {
        let inv = self.invocation_value();
        let mut entries: Vec<(String, Value)> = Vec::new();
        entries.push((text("instruction"), Value::Link(self.instruction.clone())));
        match inv {
            Value::Dict(rest) => {
                let mut rest = rest;
                proof {
                    lemma_view_entries(rest@);
                }
                let ghost first = entries@;
                entries.append(&mut rest);
                proof {
                    reveal_strlit("instruction");
                    assert("instruction"@ =~= key_instruction());
                    lemma_view_entries(first);
                    lemma_view_entries(entries@);
                    assert(view_entries(entries@) =~= seq![(key_instruction(), Val::Link(self.instruction@))]
                        + invocation_entries(self@));
                }
            },
            _ => {},
        }
        Value::Dict(entries)
    }

    /// The receipt's own identifier: that of its invocation receipt's encoding.
    pub fn cid(&self) -> (r: Cid)
        ensures
            r@ == receipt_cid(self@),
    {
        let bytes = encode(&self.invocation_value());
        Cid::of_encoding(bytes.as_slice())
    }

    /// The receipt that a value stands for, if any.
    pub fn from_value(v: Value) -> (r: Option<Receipt>)
        ensures
            match r {
                Some(x) => receipt_from_val(v@) == Some(x@),
                None => receipt_from_val(v@) is None,
            },
    {
        proof {
            reveal_strlit("instruction");
            reveal_strlit("iss");
            reveal_strlit("meta");
            reveal_strlit("out");
            reveal_strlit("prf");
            reveal_strlit("ran");
            assert("instruction"@ =~= key_instruction());
            assert("iss"@ =~= key_iss());
            assert("meta"@ =~= key_meta());
            assert("out"@ =~= key_out());
            assert("prf"@ =~= key_prf());
            assert("ran"@ =~= key_ran());
        }
        let ghost vv = v@;
        let mut d = match v {
            Value::Dict(d) => d,
            _ => {
                return None;
            },
        };
        proof {
            lemma_view_entries(d@);
        }
        let ghost dv = view_entries(d@);
        let ghost d0 = d@;
        assert(vv == Val::Dict(dv));
        if d.len() != 6 {
            return None;
        }
        let (k5, ran) = d.pop().unwrap();
        let (k4, prf) = d.pop().unwrap();
        let (k3, out) = d.pop().unwrap();
        let (k2, meta) = d.pop().unwrap();
        let (k1, iss) = d.pop().unwrap();
        let (k0, instruction) = d.pop().unwrap();
        if !(k0 == text("instruction") && k1 == text("iss") && k2 == text("meta") && k3 == text("out")
            && k4 == text("prf") && k5 == text("ran")) {
            return None;
        }
        let instruction = match instruction {
            Value::Link(c) => c,
            _ => {
                return None;
            },
        };
        let ran = match ran {
            Value::Link(c) => c,
            _ => {
                return None;
            },
        };
        let issuer = match iss {
            Value::Null => None,
            Value::Text(s) => Some(s),
            _ => {
                return None;
            },
        };
        let out = match InstructionResult::try_from_value(out) {
            Ok(o) => o,
            Err(_) => {
                return None;
            },
        };
        let prf = match &prf {
            Value::List(l) => match links_from_value(l) {
                Some(c) => c,
                None => {
                    return None;
                },
            },
            _ => {
                return None;
            },
        };
        Some(Receipt { instruction, ran, out, meta, issuer, prf })
    }
}

} // verus!
