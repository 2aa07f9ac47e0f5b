//! The `structuretemplate_` key grammar.
//!
//! A structure saved in-game is stored under `structuretemplate_` followed by a
//! namespaced id, e.g. `structuretemplate_mystructure:copy`. A bare name means
//! the `mystructure` namespace, which is what the structure block and
//! `/structure` use by default.
use crate::text::{bytes_start_with, chars_of, concat_bytes, concat_chars, contains_char, starts_with, string_from, sub_chars};
use vstd::prelude::*;
use vstd::utf8::*;

verus! {

broadcast use {encode_utf8_valid_utf8, encode_utf8_decode_utf8};

/// The text every structure key starts with.
pub const PREFIX: &'static str = "structuretemplate_";

/// The namespace a bare structure name belongs to.
pub const DEFAULT_NAMESPACE: &'static str = "mystructure";

/// The characters of [`PREFIX`].
pub open spec fn prefix_chars() -> Seq<char> {
    seq!['s', 't', 'r', 'u', 'c', 't', 'u', 'r', 'e', 't', 'e', 'm', 'p', 'l', 'a', 't', 'e', '_']
}

/// The bytes of [`PREFIX`].
pub open spec fn prefix_bytes() -> Seq<u8> {
    encode_utf8(prefix_chars())
}

/// The characters of [`DEFAULT_NAMESPACE`].
pub open spec fn default_namespace() -> Seq<char> {
    seq!['m', 'y', 's', 't', 'r', 'u', 'c', 't', 'u', 'r', 'e']
}

/// A bare name gains the default namespace; a name holding `:` is already qualified.
pub open spec fn qualify_spec(name: Seq<char>) -> Seq<char> {
    if name.contains(':') {
        name
    } else {
        default_namespace() + seq![':'] + name
    }
}

/// The key a structure id is stored under, exactly as given.
pub open spec fn encode_exact_spec(id: Seq<char>) -> Seq<u8> {
    prefix_bytes() + encode_utf8(id)
}

/// The key for a bare or qualified name.
pub open spec fn encode_spec(name: Seq<char>) -> Seq<u8> {
    encode_exact_spec(qualify_spec(name))
}

/// The id inside a key: present when the key carries the prefix followed by
/// a non-empty, valid UTF-8 body.
pub open spec fn decode_spec(key: Seq<u8>) -> Option<Seq<char>> {
    let p = prefix_bytes();
    if p.len() <= key.len() && key.subrange(0, p.len() as int) == p {
        let body = key.subrange(p.len() as int, key.len() as int);
        if valid_utf8(body) && body.len() > 0 {
            Some(decode_utf8(body))
        } else {
            None
        }
    } else {
        None
    }
}

/// How an id is shown: the default namespace and its colon are dropped.
pub open spec fn display_name_spec(id: Seq<char>) -> Seq<char> {
    let p = default_namespace() + seq![':'];
    if p.len() <= id.len() && id.subrange(0, p.len() as int) == p {
        id.subrange(p.len() as int, id.len() as int)
    } else {
        id
    }
}

/// The keys a user-supplied name may refer to, most likely first.
pub open spec fn candidates_spec(id: Seq<char>) -> Seq<Seq<u8>> {
    if encode_spec(id) == encode_exact_spec(id) {
        seq![encode_spec(id)]
    } else {
        seq![encode_spec(id), encode_exact_spec(id)]
    }
}

fn prefix_vec() -> (v: Vec<char>)
    ensures
        v@ == prefix_chars(),
{
    let v = chars_of(PREFIX);
    proof {
        reveal_strlit("structuretemplate_");
    }
    assert(v@ =~= prefix_chars());
    v
}

/// The characters of [`DEFAULT_NAMESPACE`].
pub fn default_namespace_vec() -> (v: Vec<char>)
    ensures
        v@ == default_namespace(),
{
    let v = chars_of(DEFAULT_NAMESPACE);
    proof {
        reveal_strlit("mystructure");
    }
    assert(v@ =~= default_namespace());
    v
}

/// Qualifies a name given as characters.
pub fn qualify_chars(name: &[char]) -> (q: Vec<char>)
    ensures
        q@ == qualify_spec(name@),
{
    if contains_char(name, ':') {
        concat_chars(name, &[])
    } else {
        let mut ns = default_namespace_vec();
        ns.push(':');
        concat_chars(&ns, name)
    }
}

/// Adds the default namespace to a bare name, leaving qualified names alone.
pub fn qualify(name: &str) -> (q: String)
    ensures
        q@ == qualify_spec(name@),
{
    let v = chars_of(name);
    let q = qualify_chars(&v);
    string_from(&q)
}

/// The bytes of a string (`str::as_bytes`), copied.
fn utf8_bytes(s: &str) -> (b: Vec<u8>)
    ensures
        b@ == encode_utf8(s@),
{
    let bs = s.as_bytes();
    concat_bytes(bs, &[])
}

/// The leveldb key for a structure name, bare or qualified.
pub fn encode(name: &str) -> (k: Vec<u8>)
    ensures
        k@ == encode_spec(name@),
{
    let q = qualify(name);
    encode_exact(q.as_str())
}

/// The leveldb key for an id exactly as given, with no namespace added.
pub fn encode_exact(id: &str) -> (k: Vec<u8>)
    ensures
        k@ == encode_exact_spec(id@),
{
    let p = utf8_bytes(PREFIX);
    proof {
        reveal_strlit("structuretemplate_");
        assert(PREFIX@ =~= prefix_chars());
    }
    let body = utf8_bytes(id);
    concat_bytes(&p, &body)
}

/// Every key a user-supplied name could refer to, most likely first.
///
/// A bare name normally means the `mystructure` namespace, but a world that
/// Minecraft did not write can hold a key with no namespace at all.
pub fn candidates(id: &str) -> (out: Vec<Vec<u8>>)
    ensures
        out@.len() == candidates_spec(id@).len(),
        forall|i: int| 0 <= i < out@.len() ==> #[trigger] out@[i]@ == candidates_spec(id@)[i],
{
    let qualified = encode(id);
    let exact = encode_exact(id);
    let mut out: Vec<Vec<u8>> = Vec::new();
    if bytes_eq(&qualified, &exact) {
        out.push(qualified);
    } else {
        out.push(qualified);
        out.push(exact);
    }
    out
}

/// Whether two byte sequences are equal.
pub fn bytes_eq(a: &[u8], b: &[u8]) -> (r: bool)
    ensures
        r == (a@ == b@),
{
    if a.len() != b.len() {
        return false;
    }
    let mut i: usize = 0;
    while i < a.len()
        invariant
            a@.len() == b@.len(),
            i <= a@.len(),
            forall|j: int| 0 <= j < i ==> a@[j] == b@[j],
        decreases a@.len() - i,
    {
        if a[i] != b[i] {
            return false;
        }
        i += 1;
    }
    assert(a@ =~= b@);
    true
}

/// `std::str::from_utf8`: the text the bytes encode, or `None` when they are
/// not valid UTF-8.
#[verifier::external_body]
fn utf8_text(b: &[u8]) -> (r: Option<String>)
    ensures
        r is Some <==> valid_utf8(b@),
        r matches Some(s) ==> s@ == decode_utf8(b@),
{
    match std::str::from_utf8(b) {
        Ok(s) => Some(s.to_string()),
        Err(_) => None,
    }
}

/// The qualified id in a leveldb key, or `None` if it is not a structure key.
pub fn decode(key: &[u8]) -> (r: Option<String>)
    ensures
        r matches Some(s) ==> decode_spec(key@) == Some(s@),
        r is None ==> decode_spec(key@) is None,
{
    let p = utf8_bytes(PREFIX);
    proof {
        reveal_strlit("structuretemplate_");
        assert(PREFIX@ =~= prefix_chars());
    }
    if !bytes_start_with(key, &p) {
        return None;
    }
    let body = vstd::slice::slice_subrange(key, p.len(), key.len());
    if body.len() == 0 {
        return None;
    }
    utf8_text(body)
}

/// How an id is shown to a user: the default namespace is noise, any other
/// namespace is information.
pub fn display_name(id: &str) -> (r: String)
    ensures
        r@ == display_name_spec(id@),
{
    let v = chars_of(id);
    let mut p = default_namespace_vec();
    p.push(':');
    assert(p@ =~= default_namespace() + seq![':']);
    if starts_with(&v, &p) {
        let rest = sub_chars(&v, p.len(), v.len());
        string_from(&rest)
    } else {
        string_from(&v)
    }
}

/// Decoding the key a name encodes to gives back the qualified name.
pub proof fn lemma_decode_encode(name: Seq<char>)
    ensures
        decode_spec(encode_spec(name)) == Some(qualify_spec(name)),
{
    let q = qualify_spec(name);
    let k = encode_spec(name);
    let p = prefix_bytes();
    assert(k.subrange(0, p.len() as int) =~= p);
    assert(k.subrange(p.len() as int, k.len() as int) =~= encode_utf8(q));
    assert(q.len() > 0) by {
        if !name.contains(':') {
            assert(q[0] == 'm');
        } else {
            let i = choose|i: int| 0 <= i < name.len() && name[i] == ':';
            assert(q[i] == ':');
        }
    }
    if encode_utf8(q).len() == 0 {
        assert(encode_utf8(q) =~= Seq::<u8>::empty());
        assert(decode_utf8(encode_utf8(q)) =~= Seq::<char>::empty());
    }
}

/// A qualified id is its own qualification.
pub proof fn lemma_qualify_idempotent(name: Seq<char>)
    ensures
        qualify_spec(qualify_spec(name)) == qualify_spec(name),
{
    if !name.contains(':') {
        let q = qualify_spec(name);
        assert(q[11] == ':');
    }
}

} // verus!
