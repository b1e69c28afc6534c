//! The store format of the entry lists (copied items, saved values, saved labels).
//!
//! A list is stored as its cleaned entries one after another, each as a
//! 4-byte little-endian byte count followed by the UTF-8 bytes of the entry.
use vstd::prelude::*;
use vstd::utf8::*;
use vstd::slice::slice_to_vec;
use crate::text::{
    is_trimmed, is_ws, lemma_trim_props, lemma_trimmed_fixed, string_from_utf8, trim, trim_str,
};

verus! {

broadcast use {encode_utf8_valid_utf8, encode_utf8_decode_utf8};

/// `std::io::Error`, carried as the error type of [`dedup_and_clean`]'s result; nothing
/// is known of its values.
#[verifier::external_type_specification]
#[verifier::external_body]
pub struct ExIoError(std::io::Error);

/// Why the bytes of a store cannot be read back as a list of entries.
#[derive(Debug, Clone, Copy, PartialEq, Eq, Structural)]
pub enum ReadError {
    /// An entry announces more bytes than the store holds after its length field.
    UnexpectedEof,
    /// The bytes of an entry are not well-formed UTF-8.
    InvalidUtf8,
}

/// The character sequences of a list of strings.
pub open spec fn views(v: Seq<String>) -> Seq<Seq<char>> {
    v.map_values(|s: String| s@)
}

/// The entries that a list keeps once cleaned: each entry trimmed, entries that are
/// empty after trimming dropped, the order kept.
pub open spec fn clean(xs: Seq<Seq<char>>) -> Seq<Seq<char>>
    decreases xs.len(),
{
    if xs.len() == 0 {
        seq![]
    } else {
        let rest = clean(xs.drop_last());
        let t = trim(xs.last());
        if t.len() == 0 {
            rest
        } else {
            rest.push(t)
        }
    }
}

/// The four little-endian bytes of `n` (`n < 2^32`).
pub open spec fn le_bytes(n: nat) -> Seq<u8> {
    seq![
        (n % 256) as u8,
        ((n / 256) % 256) as u8,
        ((n / 65536) % 256) as u8,
        ((n / 16777216) % 256) as u8,
    ]
}

/// The byte at `i` of `h`, zero past its end.
pub open spec fn byte_or_zero(h: Seq<u8>, i: int) -> nat {
    if 0 <= i < h.len() {
        h[i] as nat
    } else {
        0
    }
}

/// The little-endian value of a length field of up to four bytes, the missing
/// high bytes counting as zero.
pub open spec fn le_value(h: Seq<u8>) -> nat {
    byte_or_zero(h, 0) + 256 * byte_or_zero(h, 1) + 65536 * byte_or_zero(h, 2) + 16777216
        * byte_or_zero(h, 3)
}

/// The stored form of one entry: its UTF-8 byte count, cut to 32 bits, then its bytes.
pub open spec fn entry_bytes(s: Seq<char>) -> Seq<u8> {
    le_bytes(encode_utf8(s).len() % 0x1_0000_0000) + encode_utf8(s)
}

/// The stored form of a list of entries, without cleaning.
pub open spec fn encode_all(xs: Seq<Seq<char>>) -> Seq<u8>
    decreases xs.len(),
{
    if xs.len() == 0 {
        seq![]
    } else {
        encode_all(xs.drop_last()) + entry_bytes(xs.last())
    }
}

/// The bytes that writing the list `xs` stores.
pub open spec fn stored_bytes(xs: Seq<Seq<char>>) -> Seq<u8> {
    encode_all(clean(xs))
}

/// How many bytes the length field of an entry takes when `rem` bytes are left:
/// a read of four bytes gets what is there.
pub open spec fn field_width(rem: nat) -> nat {
    if rem < 4 {
        rem
    } else {
        4
    }
}

/// What reading a store gives: the entries in order, or the first error met.
#[verifier::opaque]
pub open spec fn decode_entries(b: Seq<u8>) -> Result<Seq<Seq<char>>, ReadError>
    decreases b.len(),
{
    if b.len() == 0 {
        Ok(seq![])
    } else {
        let k: nat = field_width(b.len());
        let n: nat = le_value(b.take(k as int));
        let rest = b.skip(k as int);
        if rest.len() < n {
            Err(ReadError::UnexpectedEof)
        } else if !valid_utf8(rest.take(n as int)) {
            Err(ReadError::InvalidUtf8)
        } else {
            match decode_entries(rest.skip(n as int)) {
                Ok(xs) => Ok(seq![decode_utf8(rest.take(n as int))] + xs),
                Err(e) => Err(e),
            }
        }
    }
}

/// `acc` put in front of the entries of `r`, errors passed on.
pub open spec fn prepend(acc: Seq<Seq<char>>, r: Result<Seq<Seq<char>>, ReadError>) -> Result<
    Seq<Seq<char>>,
    ReadError,
> {
    match r {
        Ok(xs) => Ok(acc + xs),
        Err(e) => Err(e),
    }
}

/// One step of reading: the first entry of a non-empty store, then the rest.
pub proof fn lemma_decode_step(b: Seq<u8>)
    requires
        b.len() > 0,
    ensures
        ({
            let k: nat = field_width(b.len());
            let n: nat = le_value(b.take(k as int));
            let rest = b.skip(k as int);
            decode_entries(b) == if rest.len() < n {
                Err(ReadError::UnexpectedEof)
            } else if !valid_utf8(rest.take(n as int)) {
                Err(ReadError::InvalidUtf8)
            } else {
                prepend(seq![decode_utf8(rest.take(n as int))], decode_entries(rest.skip(n as int)))
            }
        }),
{
    reveal(decode_entries);
}

proof fn lemma_prepend_prepend(a: Seq<Seq<char>>, b: Seq<Seq<char>>, r: Result<Seq<Seq<char>>, ReadError>)
    ensures
        prepend(a, prepend(b, r)) == prepend(a + b, r),
{
    match r {
        Ok(xs) => {
            assert(a + (b + xs) =~= (a + b) + xs);
        },
        Err(e) => {},
    }
}

/// Trims every string and drops those that are empty once trimmed, keeping the order.
pub fn dedup_and_clean(strings: Vec<String>) -> (res: std::io::Result<Vec<String>>)
    ensures
        res matches Ok(v) && views(v@) == clean(views(strings@)),
{
    let mut cleaned: Vec<String> = Vec::new();
    let ghost xs = views(strings@);
    for x in 0..strings.len()
        invariant
            xs == views(strings@),
            views(cleaned@) == clean(xs.take(x as int)),
    {
        let t = trim_str(strings[x].as_str());
        proof {
            assert(xs.take(x + 1).drop_last() =~= xs.take(x as int));
            assert(xs.take(x + 1).last() == strings@[x as int]@);
        }
        if !t.is_empty() {
            cleaned.push(t.to_owned());
            assert(views(cleaned@) =~= clean(xs.take(x as int)).push(t@));
        }
    }
    assert(xs.take(strings.len() as int) =~= xs);
    Ok(cleaned)
}

fn append_bytes(out: &mut Vec<u8>, b: &[u8])
    ensures
        final(out)@ == old(out)@ + b@,
{
    for i in 0..b.len()
        invariant
            out@ == old(out)@ + b@.take(i as int),
    {
        out.push(b[i]);
        assert(b@.take(i + 1) =~= b@.take(i as int).push(b@[i as int]));
    }
    assert(b@.take(b.len() as int) =~= b@);
}

/// The bytes of a store that holds `strings`, cleaned as [`dedup_and_clean`] does:
/// for each kept entry its UTF-8 byte count as a little-endian `u32` (cut to 32 bits),
/// then its UTF-8 bytes.
pub fn write_strings_to_file(strings: &[String]) -> (res: Vec<u8>)
    ensures
        res@ == stored_bytes(views(strings@)),
{
    let mut copy: Vec<String> = Vec::new();
    for i in 0..strings.len()
        invariant
            copy@ == strings@.take(i as int),
    {
        copy.push(strings[i].clone());
        assert(copy@ =~= strings@.take(i + 1));
    }
    assert(copy@ =~= strings@);
    let cleaned = dedup_and_clean(copy).expect("You done did screwed up my laundry!");
    let ghost ys = views(cleaned@);
    let mut out: Vec<u8> = Vec::new();
    for i in 0..cleaned.len()
        invariant
            ys == views(cleaned@),
            out@ == encode_all(ys.take(i as int)),
    {
        let bytes = cleaned[i].as_str().as_bytes();
        let v: u64 = (bytes.len() as u64) % 0x1_0000_0000;
        let header: [u8; 4] = [
            (v % 256) as u8,
            ((v / 256) % 256) as u8,
            ((v / 65536) % 256) as u8,
            ((v / 16777216) % 256) as u8,
        ];
        let ghost before = out@;
        append_bytes(&mut out, &header);
        append_bytes(&mut out, bytes);
        proof {
            assert(ys.take(i + 1).drop_last() =~= ys.take(i as int));
            assert(header@ =~= le_bytes(encode_utf8(ys[i as int]).len() % 0x1_0000_0000));
            assert(out@ =~= before + entry_bytes(ys[i as int]));
        }
    }
    assert(ys.take(cleaned.len() as int) =~= ys);
    out
}

/// Reads the entries of a store from its bytes, in order. A length field is read as
/// up to four bytes (fewer only at the end of the store, the missing bytes counting as
/// zero); an entry longer than the bytes left gives `UnexpectedEof`, one that is not
/// UTF-8 gives `InvalidUtf8`.
pub fn read_strings_from_file(bytes: &[u8]) -> (res: Result<Vec<String>, ReadError>)
    ensures
        match res {
            Ok(v) => decode_entries(bytes@) == Ok::<Seq<Seq<char>>, ReadError>(views(v@)),
            Err(e) => decode_entries(bytes@) == Err::<Seq<Seq<char>>, ReadError>(e),
        },
{
    let mut strings: Vec<String> = Vec::new();
    let mut pos: usize = 0;
    assert(bytes@.skip(0) =~= bytes@);
    assert(views(strings@) =~= seq![]);
    assert(decode_entries(bytes@) == prepend(views(strings@), decode_entries(bytes@))) by {
        match decode_entries(bytes@) {
            Ok(xs) => {
                assert(views(strings@) + xs =~= xs);
            },
            Err(e) => {},
        }
    }
    while pos < bytes.len()
        invariant
            pos <= bytes.len(),
            decode_entries(bytes@) == prepend(views(strings@), decode_entries(bytes@.skip(pos as int))),
        decreases bytes.len() - pos,
    {
        let ghost cur = bytes@.skip(pos as int);
        let rem: usize = bytes.len() - pos;
        let k: usize = if rem < 4 {
            rem
        } else {
            4
        };
        let b0: u64 = bytes[pos] as u64;
        let b1: u64 = if k > 1 {
            bytes[pos + 1] as u64
        } else {
            0
        };
        let b2: u64 = if k > 2 {
            bytes[pos + 2] as u64
        } else {
            0
        };
        let b3: u64 = if k > 3 {
            bytes[pos + 3] as u64
        } else {
            0
        };
        let n: u64 = b0 + 256 * b1 + 65536 * b2 + 16777216 * b3;
        proof {
            let h = cur.take(k as int);
            assert(byte_or_zero(h, 0) == b0);
            assert(byte_or_zero(h, 1) == b1);
            assert(byte_or_zero(h, 2) == b2);
            assert(byte_or_zero(h, 3) == b3);
            assert(le_value(h) == n);
            assert(cur.skip(k as int) =~= bytes@.skip(pos + k));
            lemma_decode_step(cur);
        }
        pos = pos + k;
        if ((bytes.len() - pos) as u64) < n {
            return Err(ReadError::UnexpectedEof);
        }
        let n: usize = n as usize;
        let chunk = slice_to_vec(&bytes[pos..pos + n]);
        proof {
            assert(chunk@ =~= bytes@.skip(pos as int).take(n as int));
        }
        match string_from_utf8(chunk) {
            None => {
                return Err(ReadError::InvalidUtf8);
            },
            Some(s) => {
                proof {
                    assert(bytes@.skip(pos as int).skip(n as int) =~= bytes@.skip(pos + n));
                }
                let ghost before = views(strings@);
                strings.push(s);
                proof {
                    assert(views(strings@) =~= before + seq![s@]);
                    lemma_prepend_prepend(before, seq![s@], decode_entries(bytes@.skip(pos + n)));
                }
                pos = pos + n;
            },
        }
    }
    assert(bytes@.skip(pos as int) =~= Seq::<u8>::empty());
    assert(decode_entries(Seq::<u8>::empty()) == Ok::<Seq<Seq<char>>, ReadError>(seq![])) by {
        reveal(decode_entries);
    }
    assert(views(strings@) + Seq::<Seq<char>>::empty() =~= views(strings@));
    Ok(strings)
}

} // verus!

verus! {

proof fn lemma_le_roundtrip(n: nat)
    requires
        n < 0x1_0000_0000,
    ensures
        le_value(le_bytes(n)) == n,
{
    let b = le_bytes(n);
    assert(byte_or_zero(b, 0) == n % 256);
    assert(byte_or_zero(b, 1) == (n / 256) % 256);
    assert(byte_or_zero(b, 2) == (n / 65536) % 256);
    assert(byte_or_zero(b, 3) == (n / 16777216) % 256);
    assert(n % 256 + 256 * ((n / 256) % 256) + 65536 * ((n / 65536) % 256) + 16777216 * ((n
        / 16777216) % 256) == n) by (nonlinear_arith)
        requires
            n < 0x1_0000_0000,
    ;
}

proof fn lemma_encode_all_front(xs: Seq<Seq<char>>)
    requires
        xs.len() > 0,
    ensures
        encode_all(xs) == entry_bytes(xs[0]) + encode_all(xs.drop_first()),
    decreases xs.len(),
{
    if xs.len() == 1 {
        assert(xs.drop_last() =~= Seq::<Seq<char>>::empty());
        assert(xs.drop_first() =~= Seq::<Seq<char>>::empty());
        assert(encode_all(xs) =~= entry_bytes(xs[0]) + encode_all(xs.drop_first()));
    } else {
        let dl = xs.drop_last();
        lemma_encode_all_front(dl);
        assert(dl.drop_first() =~= xs.drop_first().drop_last());
        assert(xs.drop_first().last() == xs.last());
        assert(encode_all(xs) =~= entry_bytes(xs[0]) + encode_all(xs.drop_first()));
    }
}

proof fn lemma_decode_entry(s: Seq<char>, tail: Seq<u8>)
    requires
        encode_utf8(s).len() < 0x1_0000_0000,
    ensures
        decode_entries(entry_bytes(s) + tail) == prepend(seq![s], decode_entries(tail)),
{
    let e = encode_utf8(s);
    let n: nat = e.len();
    let b = entry_bytes(s) + tail;
    lemma_le_roundtrip(n);
    assert(b.take(4) =~= le_bytes(n));
    assert(b.skip(4) =~= e + tail);
    assert((e + tail).take(n as int) =~= e);
    assert((e + tail).skip(n as int) =~= tail);
    lemma_decode_step(b);
}

/// Reading the stored form of entries that each fit a 32-bit length field gives
/// back exactly those entries, in order.
pub proof fn lemma_decode_encode(xs: Seq<Seq<char>>)
    requires
        forall|i: int| 0 <= i < xs.len() ==> #[trigger] encode_utf8(xs[i]).len() < 0x1_0000_0000,
    ensures
        decode_entries(encode_all(xs)) == Ok::<Seq<Seq<char>>, ReadError>(xs),
    decreases xs.len(),
{
    if xs.len() == 0 {
        reveal(decode_entries);
        assert(encode_all(xs) =~= Seq::<u8>::empty());
        assert(xs =~= Seq::<Seq<char>>::empty());
    } else {
        lemma_encode_all_front(xs);
        let rest = xs.drop_first();
        assert forall|i: int| 0 <= i < rest.len() implies #[trigger] encode_utf8(rest[i]).len()
            < 0x1_0000_0000 by {
            assert(rest[i] == xs[i + 1]);
        }
        lemma_decode_encode(rest);
        assert(encode_utf8(xs[0]).len() < 0x1_0000_0000);
        lemma_decode_entry(xs[0], encode_all(rest));
        assert(seq![xs[0]] + rest =~= xs);
        assert(decode_entries(encode_all(xs)) == prepend(seq![xs[0]], Ok::<Seq<Seq<char>>, ReadError>(rest)));
    }
}

/// Every entry of a cleaned list is non-empty and trimmed.
pub proof fn lemma_clean_entries(xs: Seq<Seq<char>>)
    ensures
        clean(xs).len() <= xs.len(),
        forall|i: int|
            0 <= i < clean(xs).len() ==> (#[trigger] clean(xs)[i]).len() > 0 && is_trimmed(
                clean(xs)[i],
            ),
    decreases xs.len(),
{
    if xs.len() > 0 {
        lemma_clean_entries(xs.drop_last());
        lemma_trim_props(xs.last());
    }
}

/// A list whose entries are all non-empty and trimmed is left as it is by cleaning.
pub proof fn lemma_clean_fixed(ys: Seq<Seq<char>>)
    requires
        forall|i: int| 0 <= i < ys.len() ==> (#[trigger] ys[i]).len() > 0 && is_trimmed(ys[i]),
    ensures
        clean(ys) == ys,
    decreases ys.len(),
{
    if ys.len() > 0 {
        let dl = ys.drop_last();
        assert forall|i: int| 0 <= i < dl.len() implies (#[trigger] dl[i]).len() > 0 && is_trimmed(
            dl[i],
        ) by {
            assert(dl[i] == ys[i]);
        }
        lemma_clean_fixed(dl);
        assert(ys.last() == ys[ys.len() - 1]);
        lemma_trimmed_fixed(ys.last());
        assert(dl.push(ys.last()) =~= ys);
    }
}

/// Cleaning twice is cleaning once.
pub proof fn lemma_clean_idempotent(xs: Seq<Seq<char>>)
    ensures
        clean(clean(xs)) == clean(xs),
{
    lemma_clean_entries(xs);
    lemma_clean_fixed(clean(xs));
}

} // verus!

verus! {

/// Cleaning distributes over concatenation: each entry is cleaned on its own.
pub proof fn lemma_clean_concat(a: Seq<Seq<char>>, b: Seq<Seq<char>>)
    ensures
        clean(a + b) == clean(a) + clean(b),
    decreases b.len(),
{
    if b.len() == 0 {
        assert(a + b =~= a);
        assert(clean(a) + clean(b) =~= clean(a));
    } else {
        lemma_clean_concat(a, b.drop_last());
        assert((a + b).drop_last() =~= a + b.drop_last());
        assert((a + b).last() == b.last());
        let t = trim(b.last());
        if t.len() == 0 {
        } else {
            assert(clean(a + b.drop_last()).push(t) =~= clean(a) + clean(b.drop_last()).push(t));
        }
    }
}

/// Reading back what writing a list stored gives that list cleaned: every entry
/// trimmed, the entries that are blank dropped, the order kept. It holds whenever
/// every kept entry fits a 32-bit length field.
pub proof fn law_read_after_write(xs: Seq<Seq<char>>)
    requires
        forall|i: int|
            0 <= i < clean(xs).len() ==> #[trigger] encode_utf8(clean(xs)[i]).len() < 0x1_0000_0000,
    ensures
        decode_entries(stored_bytes(xs)) == Ok::<Seq<Seq<char>>, ReadError>(clean(xs)),
{
    lemma_decode_encode(clean(xs));
}

/// Writing back a list that was read from a store stores the very same bytes.
pub proof fn law_rewrite_is_stable(xs: Seq<Seq<char>>)
    requires
        forall|i: int|
            0 <= i < clean(xs).len() ==> #[trigger] encode_utf8(clean(xs)[i]).len() < 0x1_0000_0000,
    ensures
        decode_entries(stored_bytes(xs)) matches Ok(ys) && stored_bytes(ys) == stored_bytes(xs),
{
    law_read_after_write(xs);
    lemma_clean_idempotent(xs);
}

/// Putting a new entry in front of a list read from a store and writing it stores the
/// trimmed entry first (if it is not blank) and the earlier entries after it, unchanged.
pub proof fn law_new_entry_goes_first(c: Seq<char>, xs: Seq<Seq<char>>)
    requires
        forall|i: int|
            0 <= i < clean(xs).len() ==> #[trigger] encode_utf8(clean(xs)[i]).len() < 0x1_0000_0000,
    ensures
        decode_entries(stored_bytes(xs)) matches Ok(ys) && clean(seq![c] + ys) == (if trim(c).len()
            == 0 {
            ys
        } else {
            seq![trim(c)] + ys
        }),
{
    law_read_after_write(xs);
    let ys = clean(xs);
    lemma_clean_concat(seq![c], ys);
    lemma_clean_idempotent(xs);
    assert(seq![c].drop_last() =~= Seq::<Seq<char>>::empty());
    assert(seq![c].last() == c);
    assert(clean(Seq::<Seq<char>>::empty()) =~= Seq::<Seq<char>>::empty());
    if trim(c).len() == 0 {
        assert(clean(seq![c]) =~= Seq::<Seq<char>>::empty());
        assert(clean(seq![c]) + ys =~= ys);
    } else {
        assert(clean(seq![c]) =~= seq![trim(c)]);
    }
}

} // verus!

verus! {

/// Adding an entry at the end of a list read from a store and writing it stores the
/// earlier entries unchanged and then the trimmed new entry (if it is not blank).
pub proof fn law_new_entry_goes_last(c: Seq<char>, xs: Seq<Seq<char>>)
    requires
        forall|i: int|
            0 <= i < clean(xs).len() ==> #[trigger] encode_utf8(clean(xs)[i]).len() < 0x1_0000_0000,
    ensures
        decode_entries(stored_bytes(xs)) matches Ok(ys) && clean(ys.push(c)) == (if trim(c).len()
            == 0 {
            ys
        } else {
            ys.push(trim(c))
        }),
{
    law_read_after_write(xs);
    let ys = clean(xs);
    lemma_clean_idempotent(xs);
    assert(ys.push(c).drop_last() =~= ys);
    assert(ys.push(c).last() == c);
}

} // verus!

verus! {

/// Cleaning a list of one entry keeps its trimmed form, unless that is empty; with
/// [`lemma_clean_concat`] this fixes what cleaning does to any list.
pub proof fn law_clean_single(x: Seq<char>)
    ensures
        clean(Seq::<Seq<char>>::empty()) == Seq::<Seq<char>>::empty(),
        clean(seq![x]) == if trim(x).len() == 0 {
            Seq::<Seq<char>>::empty()
        } else {
            seq![trim(x)]
        },
        trim(x).len() == 0 <==> forall|i: int| 0 <= i < x.len() ==> is_ws(#[trigger] x[i]),
{
    assert(seq![x].drop_last() =~= Seq::<Seq<char>>::empty());
    assert(seq![x].last() == x);
    assert(clean(Seq::<Seq<char>>::empty()) =~= Seq::<Seq<char>>::empty());
    crate::text::law_trim_strips_outer_whitespace(x);
    if trim(x).len() == 0 {
        let (i, j) = choose|i: int, j: int|
            0 <= i <= j <= x.len() && #[trigger] x.subrange(i, j) == trim(x) && (forall|k: int|
                0 <= k < i ==> is_ws(#[trigger] x[k])) && (forall|k: int|
                j <= k < x.len() ==> is_ws(#[trigger] x[k]));
        assert(x.subrange(i, j).len() == 0);
        assert forall|k: int| 0 <= k < x.len() implies is_ws(#[trigger] x[k]) by {
            if k < i {
            } else {
                assert(j <= k);
            }
        }
    } else {
        assert(seq![trim(x)] =~= Seq::<Seq<char>>::empty().push(trim(x)));
        if forall|i: int| 0 <= i < x.len() ==> is_ws(#[trigger] x[i]) {
            assert(is_trimmed(trim(x)));
            let (i, j) = choose|i: int, j: int|
                0 <= i <= j <= x.len() && #[trigger] x.subrange(i, j) == trim(x) && (forall|k: int|
                    0 <= k < i ==> is_ws(#[trigger] x[k])) && (forall|k: int|
                    j <= k < x.len() ==> is_ws(#[trigger] x[k]));
            assert(trim(x)[0] == x[i]);
        }
    }
}

/// The stored form of an entry is four bytes holding, little-endian, its UTF-8 byte
/// count modulo 2^32, then its UTF-8 bytes.
pub proof fn law_entry_layout(s: Seq<char>)
    ensures
        ({
            let e = entry_bytes(s);
            &&& e.len() == 4 + encode_utf8(s).len()
            &&& e[0] + 256 * e[1] + 65536 * e[2] + 16777216 * e[3] == encode_utf8(s).len()
                % 0x1_0000_0000
            &&& e.skip(4) == encode_utf8(s)
        }),
{
    let m = encode_utf8(s).len() % 0x1_0000_0000;
    lemma_le_roundtrip(m);
    let e = entry_bytes(s);
    assert(e.skip(4) =~= encode_utf8(s));
    assert(byte_or_zero(le_bytes(m), 0) == e[0]);
    assert(byte_or_zero(le_bytes(m), 1) == e[1]);
    assert(byte_or_zero(le_bytes(m), 2) == e[2]);
    assert(byte_or_zero(le_bytes(m), 3) == e[3]);
}

/// A list is stored as its entries' stored forms one after another.
pub proof fn law_encode_all_concat(xs: Seq<Seq<char>>, ys: Seq<Seq<char>>)
    ensures
        encode_all(Seq::<Seq<char>>::empty()) == Seq::<u8>::empty(),
        encode_all(xs + ys) == encode_all(xs) + encode_all(ys),
        xs.len() == 1 ==> encode_all(xs) == entry_bytes(xs[0]),
    decreases ys.len(),
{
    if xs.len() == 1 {
        assert(xs.drop_last() =~= Seq::<Seq<char>>::empty());
        assert(encode_all(Seq::<Seq<char>>::empty()) =~= Seq::<u8>::empty());
        assert(xs.last() == xs[0]);
        assert(encode_all(xs) =~= entry_bytes(xs[0]));
    }
    if ys.len() == 0 {
        assert(xs + ys =~= xs);
        assert(encode_all(xs) + encode_all(ys) =~= encode_all(xs));
    } else {
        law_encode_all_concat(xs, ys.drop_last());
        assert((xs + ys).drop_last() =~= xs + ys.drop_last());
        assert((xs + ys).last() == ys.last());
        assert(encode_all(xs + ys) =~= encode_all(xs) + encode_all(ys));
    }
}

/// Reading a store of at least four bytes: its first four bytes, little-endian, give
/// the byte count `n` of the first entry. Fewer than `n` bytes after them is
/// `UnexpectedEof`; `n` bytes that are not UTF-8 are `InvalidUtf8`; otherwise the first
/// entry is what those bytes encode and the rest is read from the bytes after them.
pub proof fn law_read_first_entry(b: Seq<u8>)
    requires
        b.len() >= 4,
    ensures
        ({
            let n = b[0] + 256 * b[1] + 65536 * b[2] + 16777216 * b[3];
            if b.len() - 4 < n {
                decode_entries(b) == Err::<Seq<Seq<char>>, ReadError>(ReadError::UnexpectedEof)
            } else if !valid_utf8(b.subrange(4, 4 + n)) {
                decode_entries(b) == Err::<Seq<Seq<char>>, ReadError>(ReadError::InvalidUtf8)
            } else {
                &&& (decode_entries(b) is Ok <==> decode_entries(b.skip(4 + n)) is Ok)
                &&& (decode_entries(b) matches Ok(xs) ==> xs.len() > 0 && xs[0] == decode_utf8(
                    b.subrange(4, 4 + n),
                ) && decode_entries(b.skip(4 + n)) == Ok::<Seq<Seq<char>>, ReadError>(
                    xs.drop_first(),
                ))
                &&& (decode_entries(b) matches Err(e) ==> decode_entries(b.skip(4 + n)) == Err::<
                    Seq<Seq<char>>,
                    ReadError,
                >(e))
            }
        }),
{
    lemma_decode_step(b);
    let n = b[0] + 256 * b[1] + 65536 * b[2] + 16777216 * b[3];
    let h = b.take(4);
    assert(le_value(h) == n);
    let rest = b.skip(4);
    if rest.len() >= n {
        assert(rest.take(n as int) =~= b.subrange(4, 4 + n));
        assert(rest.skip(n as int) =~= b.skip(4 + n));
        if valid_utf8(b.subrange(4, 4 + n)) {
            match decode_entries(b.skip(4 + n)) {
                Ok(ys) => {
                    let xs = seq![decode_utf8(b.subrange(4, 4 + n))] + ys;
                    assert(xs.drop_first() =~= ys);
                },
                Err(e) => {},
            }
        }
    }
}

/// Reading an empty store gives no entries; a store of one to three bytes (a length
/// field cut short) gives one empty entry when those bytes are all zero, and
/// `UnexpectedEof` otherwise.
pub proof fn law_read_short_store(b: Seq<u8>)
    requires
        b.len() < 4,
    ensures
        b.len() == 0 ==> decode_entries(b) == Ok::<Seq<Seq<char>>, ReadError>(
            Seq::<Seq<char>>::empty(),
        ),
        b.len() > 0 && (forall|i: int| 0 <= i < b.len() ==> b[i] == 0) ==> decode_entries(b)
            == Ok::<Seq<Seq<char>>, ReadError>(seq![Seq::<char>::empty()]),
        b.len() > 0 && (exists|i: int| 0 <= i < b.len() && b[i] != 0) ==> decode_entries(b)
            == Err::<Seq<Seq<char>>, ReadError>(ReadError::UnexpectedEof),
{
    if b.len() == 0 {
        reveal(decode_entries);
    } else {
        lemma_decode_step(b);
        let h = b.take(b.len() as int);
        assert(h =~= b);
        let rest = b.skip(b.len() as int);
        assert(rest =~= Seq::<u8>::empty());
        if forall|i: int| 0 <= i < b.len() ==> b[i] == 0 {
            assert(b[0] == 0);
            assert(b.len() > 1 ==> b[1] == 0);
            assert(b.len() > 2 ==> b[2] == 0);
            assert(le_value(h) == 0);
            assert(rest.take(0) =~= Seq::<u8>::empty());
            assert(rest.skip(0) =~= Seq::<u8>::empty());
            assert(decode_utf8(Seq::<u8>::empty()) =~= Seq::<char>::empty());
            assert(decode_entries(Seq::<u8>::empty()) == Ok::<Seq<Seq<char>>, ReadError>(
                Seq::<Seq<char>>::empty(),
            )) by {
                reveal(decode_entries);
            }
            assert(seq![Seq::<char>::empty()] + Seq::<Seq<char>>::empty() =~= seq![
                Seq::<char>::empty(),
            ]);
        }
        if exists|i: int| 0 <= i < b.len() && b[i] != 0 {
            let i = choose|i: int| 0 <= i < b.len() && b[i] != 0;
            assert(byte_or_zero(h, i) > 0);
            assert(le_value(h) > 0);
        }
    }
}

} // verus!
