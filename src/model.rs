//! Decoded chain data as handed over by a block source.

use vstd::prelude::*;

verus! {

/// A reference to one output of a transaction.
pub struct OutPoint {
    pub tx_hash: Vec<u8>,
    pub index: u32,
}

pub struct OutPointView {
    pub tx_hash: Seq<u8>,
    pub index: u32,
}

impl View for OutPoint {
    type V = OutPointView;

    open spec fn view(&self) -> OutPointView {
        OutPointView { tx_hash: self.tx_hash@, index: self.index }
    }
}

/// A lock or type script: code reference plus arguments.
pub struct Script {
    pub code_hash: Vec<u8>,
    pub hash_type: u8,
    pub args: Vec<u8>,
}

pub struct ScriptView {
    pub code_hash: Seq<u8>,
    pub hash_type: u8,
    pub args: Seq<u8>,
}

impl View for Script {
    type V = ScriptView;

    open spec fn view(&self) -> ScriptView {
        ScriptView { code_hash: self.code_hash@, hash_type: self.hash_type, args: self.args@ }
    }
}

/// One output of a transaction together with its data payload.
pub struct CellOutput {
    pub capacity: u64,
    pub lock: Script,
    pub type_script: Option<Script>,
    pub data: Vec<u8>,
}

pub struct Transaction {
    pub hash: Vec<u8>,
    pub inputs: Vec<OutPoint>,
    pub outputs: Vec<CellOutput>,
}

pub struct Block {
    pub number: u64,
    pub hash: Vec<u8>,
    pub timestamp: u64,
    pub epoch: u64,
    pub uncle_hashes: Vec<u8>,
    pub transactions: Vec<Transaction>,
}

pub open spec fn opt_script_view(s: Option<Script>) -> Option<ScriptView> {
    match s {
        Some(x) => Some(x@),
        None => None,
    }
}

/// A byte-for-byte copy.
pub fn copy_bytes(v: &Vec<u8>) -> (r: Vec<u8>)
    ensures
        r@ == v@,
{
    let mut r: Vec<u8> = Vec::with_capacity(v.len());
    let mut i: usize = 0;
    while i < v.len()
        invariant
            i <= v.len(),
            r@ == v@.subrange(0, i as int),
        decreases v.len() - i,
    {
        r.push(v[i]);
        i = i + 1;
    }
    assert(r@ =~= v@);
    r
}

/// Content equality of two byte strings.
pub fn bytes_eq(a: &Vec<u8>, b: &Vec<u8>) -> (r: bool)
    ensures
        r == (a@ == b@),
{
    if a.len() != b.len() {
        return false;
    }
    let mut i: usize = 0;
    while i < a.len()
        invariant
            a.len() == b.len(),
            i <= a.len(),
            a@.subrange(0, i as int) == b@.subrange(0, i as int),
        decreases a.len() - i,
    {
        if a[i] != b[i] {
            assert(a@[i as int] != b@[i as int]);
            return false;
        }
        assert(a@.subrange(0, i + 1) =~= a@.subrange(0, i as int).push(a@[i as int]));
        assert(b@.subrange(0, i + 1) =~= b@.subrange(0, i as int).push(b@[i as int]));
        i = i + 1;
    }
    assert(a@ =~= a@.subrange(0, i as int));
    assert(b@ =~= b@.subrange(0, i as int));
    true
}

impl OutPoint {
    pub fn new(tx_hash: Vec<u8>, index: u32) -> (r: OutPoint)
        ensures
            r@ == (OutPointView { tx_hash: tx_hash@, index }),
    {
        OutPoint { tx_hash, index }
    }

    pub fn duplicate(&self) -> (r: OutPoint)
        ensures
            r@ == self@,
    {
        OutPoint { tx_hash: copy_bytes(&self.tx_hash), index: self.index }
    }
}

impl Script {
    pub fn duplicate(&self) -> (r: Script)
        ensures
            r@ == self@,
    {
        Script {
            code_hash: copy_bytes(&self.code_hash),
            hash_type: self.hash_type,
            args: copy_bytes(&self.args),
        }
    }

    /// Content equality: same code reference, hash type and arguments.
    pub fn same_content(&self, other: &Script) -> (r: bool)
        ensures
            r == (self@ == other@),
    {
        bytes_eq(&self.code_hash, &other.code_hash) && self.hash_type == other.hash_type
            && bytes_eq(&self.args, &other.args)
    }
}

pub fn duplicate_opt_script(s: &Option<Script>) -> (r: Option<Script>)
    ensures
        opt_script_view(r) == opt_script_view(*s),
{
    match s {
        Some(x) => Some(x.duplicate()),
        None => None,
    }
}

} // verus!
