//! The file format of a profile collection, and its encoder and decoder.
//!
//! A file is the four-byte marker `ZNP1` (which also names the format's
//! version), the number of entries as a little-endian `u64`, and then each
//! entry in order: its name and its theme reference, each written as its
//! UTF-8 byte length (a little-endian `u64`) followed by those bytes.
use crate::profile::{views, Profile, ProfileView};
use vstd::bytes::{lemma_auto_spec_u64_to_from_le_bytes, spec_u64_from_le_bytes, spec_u64_to_le_bytes, u64_from_le_bytes, u64_to_le_bytes};
use vstd::prelude::*;
use vstd::slice::{slice_subrange, slice_to_vec};
use vstd::utf8::{decode_utf8, encode_utf8, valid_utf8};

verus! {

/// Why a byte stream could not be decoded.
#[derive(Clone, Copy, Debug, PartialEq, Eq, Structural)]
pub enum DecodeError {
    /// The bytes are not an encoding of any collection: wrong marker,
    /// truncated, trailing bytes, or text that is not UTF-8.
    Malformed,
}

/// The marker at the start of every file: `ZNP1`.
pub open spec fn magic() -> Seq<u8> {
    seq![0x5Au8, 0x4Eu8, 0x50u8, 0x31u8]
}

/// A text field: its UTF-8 byte length, then its UTF-8 bytes.
pub open spec fn field_bytes(s: Seq<char>) -> Seq<u8> {
    spec_u64_to_le_bytes(encode_utf8(s).len() as u64) + encode_utf8(s)
}

/// One entry: its name field, then its theme reference field.
pub open spec fn entry_bytes(p: ProfileView) -> Seq<u8> {
    field_bytes(p.name) + field_bytes(p.theme_ref)
}

/// The entries, one after the other.
pub open spec fn entries_bytes(e: Seq<ProfileView>) -> Seq<u8>
    decreases e.len(),
{
    if e.len() == 0 {
        Seq::empty()
    } else {
        entry_bytes(e[0]) + entries_bytes(e.drop_first())
    }
}

/// The encoding of a collection.
pub open spec fn spec_encode(e: Seq<ProfileView>) -> Seq<u8> {
    magic() + spec_u64_to_le_bytes(e.len() as u64) + entries_bytes(e)
}

/// Every length that the format writes as a `u64` fits in one. This holds of
/// every collection held in memory.
pub open spec fn encodable(e: Seq<ProfileView>) -> bool {
    &&& e.len() <= u64::MAX
    &&& forall|i: int| 0 <= i < e.len() ==> encode_utf8(#[trigger] e[i].name).len() <= u64::MAX
        && encode_utf8(e[i].theme_ref).len() <= u64::MAX
}

/// Reads a text field at the front of `b`: the text and the bytes after it.
pub open spec fn parse_field(b: Seq<u8>) -> Option<(Seq<char>, Seq<u8>)> {
    if b.len() < 8 {
        None
    } else {
        let n = spec_u64_from_le_bytes(b.subrange(0, 8)) as int;
        if b.len() - 8 < n {
            None
        } else if valid_utf8(b.subrange(8, 8 + n)) {
            Some((decode_utf8(b.subrange(8, 8 + n)), b.subrange(8 + n, b.len() as int)))
        } else {
            None
        }
    }
}

/// Reads an entry at the front of `b`: the entry and the bytes after it.
pub open spec fn parse_entry(b: Seq<u8>) -> Option<(ProfileView, Seq<u8>)> {
    match parse_field(b) {
        None => None,
        Some((name, r1)) => match parse_field(r1) {
            None => None,
            Some((theme_ref, r2)) => Some((ProfileView { name, theme_ref }, r2)),
        },
    }
}

/// Reads exactly `n` entries that take up all of `b`.
pub open spec fn parse_entries(b: Seq<u8>, n: nat) -> Option<Seq<ProfileView>>
    decreases n,
{
    if n == 0 {
        if b.len() == 0 {
            Some(Seq::empty())
        } else {
            None
        }
    } else {
        match parse_entry(b) {
            None => None,
            Some((p, rest)) => match parse_entries(rest, (n - 1) as nat) {
                None => None,
                Some(t) => Some(seq![p] + t),
            },
        }
    }
}

/// The collection that `b` encodes, if it encodes one.
pub open spec fn spec_decode(b: Seq<u8>) -> Option<Seq<ProfileView>> {
    if b.len() < 12 || b.subrange(0, 4) != magic() {
        None
    } else {
        parse_entries(b.subrange(12, b.len() as int), spec_u64_from_le_bytes(b.subrange(4, 12)) as nat)
    }
}

/// `acc` followed by the entries of `o`, if there are any.
pub open spec fn prepend(acc: Seq<ProfileView>, o: Option<Seq<ProfileView>>) -> Option<Seq<ProfileView>> {
    match o {
        None => None,
        Some(t) => Some(acc + t),
    }
}

/// Relies on `String::from_utf8`: it succeeds exactly on valid UTF-8, and then
/// holds the characters that the bytes encode.
#[verifier::external_body]
fn string_from_utf8(b: Vec<u8>) -> (r: Option<String>)
    ensures
        r.is_some() <==> valid_utf8(b@),
        r matches Some(s) ==> s@ == decode_utf8(b@),
{
    String::from_utf8(b).ok()
}

fn append_bytes(out: &mut Vec<u8>, b: &[u8])
    ensures
        final(out)@ == old(out)@ + b@,
{
    let mut i: usize = 0;
    while i < b.len()
        invariant
            0 <= i <= b@.len(),
            out@ == old(out)@ + b@.subrange(0, i as int),
        decreases b@.len() - i,
    {
        out.push(b[i]);
        proof {
            assert(b@.subrange(0, i + 1) == b@.subrange(0, i as int).push(b@[i as int]));
        }
        i = i + 1;
    }
    proof {
        assert(b@.subrange(0, b@.len() as int) == b@);
    }
}

fn append_field(out: &mut Vec<u8>, s: &String)
    ensures
        final(out)@ == old(out)@ + field_bytes(s@),
{
    let b = s.as_str().as_bytes();
    let len = u64_to_le_bytes(b.len() as u64);
    append_bytes(out, len.as_slice());
    append_bytes(out, b);
    proof {
        assert(old(out)@ + len@ + b@ == old(out)@ + (len@ + b@));
    }
}

proof fn lemma_entries_bytes_last(e: Seq<ProfileView>)
    requires
        e.len() > 0,
    ensures
        entries_bytes(e) == entries_bytes(e.drop_last()) + entry_bytes(e.last()),
    decreases e.len(),
{
    if e.len() == 1 {
        assert(e.drop_last() =~= Seq::<ProfileView>::empty());
        assert(e.drop_first() =~= Seq::<ProfileView>::empty());
        assert(entries_bytes(e.drop_first()) == Seq::<u8>::empty());
        assert(entries_bytes(e.drop_last()) == Seq::<u8>::empty());
        assert(entries_bytes(e) =~= entry_bytes(e[0]) + Seq::<u8>::empty());
        assert(entries_bytes(e) =~= Seq::<u8>::empty() + entry_bytes(e.last()));
    } else {
        lemma_entries_bytes_last(e.drop_first());
        assert(e.drop_first().drop_last() =~= e.drop_last().drop_first());
        assert(e.drop_last()[0] == e[0]);
        assert(entries_bytes(e.drop_last()) == entry_bytes(e[0]) + entries_bytes(e.drop_last().drop_first()));
        assert(entries_bytes(e) =~= entries_bytes(e.drop_last()) + entry_bytes(e.last()));
    }
}

/// Encodes a collection. Equal collections give equal bytes.
pub fn encode(entries: &[Profile]) -> (r: Vec<u8>)
    ensures
        r@ == spec_encode(views(entries@)),
{
    let ghost e = views(entries@);
    let mut out: Vec<u8> = Vec::new();
    out.push(0x5Au8);
    out.push(0x4Eu8);
    out.push(0x50u8);
    out.push(0x31u8);
    let count = u64_to_le_bytes(entries.len() as u64);
    append_bytes(&mut out, count.as_slice());
    proof {
        assert(out@ =~= magic() + spec_u64_to_le_bytes(e.len() as u64));
        assert(e.take(0) =~= Seq::<ProfileView>::empty());
        assert(out@ =~= magic() + spec_u64_to_le_bytes(e.len() as u64) + entries_bytes(e.take(0)));
    }
    let mut i: usize = 0;
    while i < entries.len()
        invariant
            e == views(entries@),
            0 <= i <= entries@.len(),
            out@ == magic() + spec_u64_to_le_bytes(e.len() as u64) + entries_bytes(e.take(i as int)),
        decreases entries@.len() - i,
    {
        let ghost before = out@;
        append_field(&mut out, &entries[i].name);
        append_field(&mut out, &entries[i].theme_ref);
        proof {
            let t = e.take(i + 1);
            lemma_entries_bytes_last(t);
            assert(t.drop_last() =~= e.take(i as int));
            assert(t.last() == entries@[i as int]@);
            assert(out@ =~= magic() + spec_u64_to_le_bytes(e.len() as u64) + entries_bytes(t));
        }
        i = i + 1;
    }
    proof {
        assert(e.take(e.len() as int) =~= e);
    }
    out
}

fn read_field(b: &[u8], pos: usize) -> (r: Option<(String, usize)>)
    requires
        pos <= b@.len(),
    ensures
        match r {
            None => parse_field(b@.subrange(pos as int, b@.len() as int)) is None,
            Some((s, next)) => pos <= next <= b@.len() && parse_field(
                b@.subrange(pos as int, b@.len() as int),
            ) == Some((s@, b@.subrange(next as int, b@.len() as int))),
        },
{
    let ghost rest = b@.subrange(pos as int, b@.len() as int);
    if b.len() - pos < 8 {
        return None;
    }
    let n = u64_from_le_bytes(slice_subrange(b, pos, pos + 8));
    proof {
        assert(rest.subrange(0, 8) =~= b@.subrange(pos as int, pos + 8));
    }
    if ((b.len() - pos - 8) as u64) < n {
        return None;
    }
    let start: usize = pos + 8;
    let end: usize = start + n as usize;
    let text = slice_to_vec(slice_subrange(b, start, end));
    proof {
        assert(rest.subrange(8, 8 + n) =~= text@);
        assert(rest.subrange(8 + n, rest.len() as int) =~= b@.subrange(end as int, b@.len() as int));
    }
    match string_from_utf8(text) {
        None => None,
        Some(s) => Some((s, end)),
    }
}

/// Decodes a collection. It fails, and never panics, on any stream that is
/// not an encoding.
pub fn decode(bytes: &[u8]) -> (r: Result<Vec<Profile>, DecodeError>)
    ensures
        match r {
            Ok(v) => spec_decode(bytes@) == Some(views(v@)),
            Err(_) => spec_decode(bytes@) is None,
        },
{
    if bytes.len() < 12 {
        return Err(DecodeError::Malformed);
    }
    if bytes[0] != 0x5Au8 || bytes[1] != 0x4Eu8 || bytes[2] != 0x50u8 || bytes[3] != 0x31u8 {
        proof {
            let h = bytes@.subrange(0, 4);
            assert(h[0] == bytes@[0] && h[1] == bytes@[1] && h[2] == bytes@[2] && h[3] == bytes@[3]);
            assert(h != magic());
        }
        return Err(DecodeError::Malformed);
    }
    proof {
        assert(bytes@.subrange(0, 4) =~= magic());
    }
    let count = u64_from_le_bytes(slice_subrange(bytes, 4, 12));
    let mut out: Vec<Profile> = Vec::new();
    let mut pos: usize = 12;
    let mut i: u64 = 0;
    proof {
        assert(views(out@) =~= Seq::<ProfileView>::empty());
        assert(Seq::<ProfileView>::empty() + parse_entries(bytes@.subrange(12, bytes@.len() as int), count as nat)->0
            =~= parse_entries(bytes@.subrange(12, bytes@.len() as int), count as nat)->0);
    }
    while i < count
        invariant
            12 <= pos <= bytes@.len(),
            i <= count,
            spec_decode(bytes@) == prepend(
                views(out@),
                parse_entries(bytes@.subrange(pos as int, bytes@.len() as int), (count - i) as nat),
            ),
        decreases count - i,
    {
        let ghost rest = bytes@.subrange(pos as int, bytes@.len() as int);
        let ghost n = (count - i) as nat;
        match read_field(bytes, pos) {
            None => {
                return Err(DecodeError::Malformed);
            },
            Some((name, p1)) => match read_field(bytes, p1) {
                None => {
                    return Err(DecodeError::Malformed);
                },
                Some((theme_ref, p2)) => {
                    let ghost acc = views(out@);
                    let p = Profile { name, theme_ref };
                    out.push(p);
                    proof {
                        let tail = parse_entries(bytes@.subrange(p2 as int, bytes@.len() as int), (n - 1) as nat);
                        assert(parse_entry(rest) == Some((p@, bytes@.subrange(p2 as int, bytes@.len() as int))));
                        assert(views(out@) =~= acc.push(p@));
                        if tail is Some {
                            assert(acc + (seq![p@] + tail->0) =~= acc.push(p@) + tail->0);
                        }
                    }
                    pos = p2;
                    i = i + 1;
                },
            },
        }
    }
    if pos != bytes.len() {
        return Err(DecodeError::Malformed);
    }
    proof {
        assert(views(out@) + Seq::<ProfileView>::empty() =~= views(out@));
    }
    Ok(out)
}

proof fn lemma_field_round_trip(s: Seq<char>, rest: Seq<u8>)
    requires
        encode_utf8(s).len() <= u64::MAX,
    ensures
        parse_field(field_bytes(s) + rest) == Some((s, rest)),
{
    let t = encode_utf8(s);
    let b = field_bytes(s) + rest;
    lemma_auto_spec_u64_to_from_le_bytes();
    vstd::utf8::encode_utf8_valid_utf8(s);
    vstd::utf8::encode_utf8_decode_utf8(s);
    assert(b.subrange(0, 8) =~= spec_u64_to_le_bytes(t.len() as u64));
    assert(b.subrange(8, 8 + t.len() as int) =~= t);
    assert(b.subrange(8 + t.len() as int, b.len() as int) =~= rest);
}

proof fn lemma_entry_round_trip(p: ProfileView, rest: Seq<u8>)
    requires
        encode_utf8(p.name).len() <= u64::MAX,
        encode_utf8(p.theme_ref).len() <= u64::MAX,
    ensures
        parse_entry(entry_bytes(p) + rest) == Some((p, rest)),
{
    let r1 = field_bytes(p.theme_ref) + rest;
    assert(entry_bytes(p) + rest =~= field_bytes(p.name) + r1);
    lemma_field_round_trip(p.name, r1);
    lemma_field_round_trip(p.theme_ref, rest);
}

proof fn lemma_entries_round_trip(e: Seq<ProfileView>)
    requires
        encodable(e),
    ensures
        parse_entries(entries_bytes(e), e.len()) == Some(e),
    decreases e.len(),
{
    if e.len() > 0 {
        let t = e.drop_first();
        assert(encodable(t)) by {
            assert forall|i: int| 0 <= i < t.len() implies encode_utf8(#[trigger] t[i].name).len() <= u64::MAX
                && encode_utf8(t[i].theme_ref).len() <= u64::MAX by {
                assert(t[i] == e[i + 1]);
            }
        }
        lemma_entries_round_trip(t);
        assert(encode_utf8(e[0].name).len() <= u64::MAX);
        lemma_entry_round_trip(e[0], entries_bytes(t));
        assert(seq![e[0]] + t =~= e);
    }
}

/// Decoding the encoding of a collection gives the collection back.
pub proof fn lemma_round_trip(e: Seq<ProfileView>)
    requires
        encodable(e),
    ensures
        spec_decode(spec_encode(e)) == Some(e),
{
    let b = spec_encode(e);
    lemma_auto_spec_u64_to_from_le_bytes();
    lemma_entries_round_trip(e);
    assert(b.subrange(0, 4) =~= magic());
    assert(b.subrange(4, 12) =~= spec_u64_to_le_bytes(e.len() as u64));
    assert(b.subrange(12, b.len() as int) =~= entries_bytes(e));
}

} // verus!
