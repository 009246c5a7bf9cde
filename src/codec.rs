//! Packing of a row (an ordered list of text fields) into bytes and back.
//!
//! A packed row is the concatenation, field by field, of a 16-bit big-endian
//! byte length followed by the field's UTF-8 bytes.
use vstd::prelude::*;
use vstd::utf8::*;

verus! {

/// The largest value a 16-bit length prefix can hold.
pub const MAX_U16: usize = 65535;

/// Big-endian value of a two-byte sequence.
pub open spec fn be16(hi: u8, lo: u8) -> nat {
    hi as nat * 256 + lo as nat
}

/// The two big-endian bytes of a 16-bit value.
pub open spec fn be16_bytes(n: nat) -> Seq<u8> {
    seq![(n / 256) as u8, (n % 256) as u8]
}

/// The mathematical model of a row: its fields as character sequences.
pub open spec fn row_model(row: Seq<String>) -> Seq<Seq<char>> {
    row.map_values(|s: String| s@)
}

/// The mathematical model of a list of rows.
pub open spec fn rows_model(rows: Seq<Vec<String>>) -> Seq<Seq<Seq<char>>> {
    rows.map_values(|r: Vec<String>| row_model(r@))
}

/// One field as it is packed: its byte length, then its UTF-8 bytes.
pub open spec fn encode_field(f: Seq<char>) -> Seq<u8> {
    be16_bytes(encode_utf8(f).len()) + encode_utf8(f)
}

/// The packed form of a row.
pub open spec fn packed(row: Seq<Seq<char>>) -> Seq<u8>
    decreases row.len(),
{
    if row.len() == 0 {
        seq![]
    } else {
        encode_field(row[0]) + packed(row.drop_first())
    }
}

/// A row can be packed when each field and the whole packed row fit a 16-bit length.
pub open spec fn packable(row: Seq<Seq<char>>) -> bool {
    &&& forall|i: int| 0 <= i < row.len() ==> #[trigger] encode_utf8(row[i]).len() <= MAX_U16
    &&& packed(row).len() <= MAX_U16
}

/// Decoding of packed bytes: `None` when the bytes are not a well-formed packed row.
pub open spec fn unpacked(b: Seq<u8>) -> Option<Seq<Seq<char>>>
    decreases b.len(),
{
    if b.len() == 0 {
        Some(seq![])
    } else if b.len() < 2 {
        None
    } else {
        let n = be16(b[0], b[1]) as int;
        if b.len() < 2 + n {
            None
        } else if !valid_utf8(b.subrange(2, 2 + n)) {
            None
        } else {
            match unpacked(b.subrange(2 + n, b.len() as int)) {
                Some(rest) => Some(seq![decode_utf8(b.subrange(2, 2 + n))] + rest),
                None => None,
            }
        }
    }
}

/// `prefix` followed by the decoded rest, if the rest decodes.
pub open spec fn prepend(prefix: Seq<Seq<char>>, rest: Option<Seq<Seq<char>>>) -> Option<
    Seq<Seq<char>>,
> {
    match rest {
        Some(r) => Some(prefix + r),
        None => None,
    }
}

pub fn u16_to_be(n: u16) -> (r: [u8; 2])
    ensures
        r@ == be16_bytes(n as nat),
        be16(r[0], r[1]) == n,
{
    let r = [(n / 256) as u8, (n % 256) as u8];
    assert(r@ =~= be16_bytes(n as nat));
    r
}

pub fn be_to_u16(hi: u8, lo: u8) -> (r: u16)
    ensures
        r as nat == be16(hi, lo),
{
    hi as u16 * 256 + lo as u16
}

proof fn lemma_be16_bytes_round(hi: u8, lo: u8)
    ensures
        be16_bytes(be16(hi, lo)) == seq![hi, lo],
{
    let n = be16(hi, lo);
    assert(n / 256 == hi as nat && n % 256 == lo as nat) by (nonlinear_arith)
        requires
            n == hi as nat * 256 + lo as nat,
            lo < 256,
    ;
    assert(be16_bytes(n) =~= seq![hi, lo]);
}

pub proof fn lemma_be16_bytes_value(n: nat)
    requires
        n <= MAX_U16,
    ensures
        be16(be16_bytes(n)[0], be16_bytes(n)[1]) == n,
{
}

/// Packing distributes over concatenation of rows.
pub proof fn lemma_packed_concat(a: Seq<Seq<char>>, b: Seq<Seq<char>>)
    ensures
        packed(a + b) == packed(a) + packed(b),
    decreases a.len(),
{
    if a.len() == 0 {
        assert(a + b =~= b);
    } else {
        lemma_packed_concat(a.drop_first(), b);
        assert((a + b).drop_first() =~= a.drop_first() + b);
    }
}

proof fn lemma_packed_push(a: Seq<Seq<char>>, f: Seq<char>)
    ensures
        packed(a.push(f)) == packed(a) + encode_field(f),
{
    lemma_packed_concat(a, seq![f]);
    assert(a.push(f) =~= a + seq![f]);
    let one = seq![f];
    assert(one.drop_first() =~= Seq::<Seq<char>>::empty());
    assert(packed(one.drop_first()) == Seq::<u8>::empty());
    assert(one[0] == f);
    assert(packed(one) =~= encode_field(f) + packed(one.drop_first()));
    assert(packed(one) =~= encode_field(f));
}

/// Packing then unpacking gives the row back.
pub proof fn lemma_unpack_packed(row: Seq<Seq<char>>)
    requires
        forall|i: int| 0 <= i < row.len() ==> #[trigger] encode_utf8(row[i]).len() <= MAX_U16,
    ensures
        unpacked(packed(row)) == Some(row),
    decreases row.len(),
{
    if row.len() > 0 {
        let rest = row.drop_first();
        assert forall|i: int| 0 <= i < rest.len() implies #[trigger] encode_utf8(rest[i]).len()
            <= MAX_U16 by {
            assert(rest[i] == row[i + 1]);
        }
        lemma_unpack_packed(rest);
        let e = encode_utf8(row[0]);
        assert(encode_utf8(row[0]).len() <= MAX_U16);
        lemma_be16_bytes_value(e.len());
        encode_utf8_valid_utf8(row[0]);
        encode_utf8_decode_utf8(row[0]);
        let b = packed(row);
        assert(b =~= be16_bytes(e.len()) + e + packed(rest));
        assert(b.subrange(2, 2 + e.len() as int) =~= e);
        assert(b.subrange(2 + e.len() as int, b.len() as int) =~= packed(rest));
        assert(seq![row[0]] + rest =~= row);
    }
}

/// Unpacking well-formed bytes and packing the result gives the same bytes.
pub proof fn lemma_pack_unpacked(b: Seq<u8>)
    requires
        unpacked(b) is Some,
    ensures
        packed(unpacked(b)->Some_0) == b,
    decreases b.len(),
{
    if b.len() > 0 {
        let n = be16(b[0], b[1]) as int;
        let piece = b.subrange(2, 2 + n);
        let tail = b.subrange(2 + n, b.len() as int);
        lemma_pack_unpacked(tail);
        let row = unpacked(b)->Some_0;
        let f = decode_utf8(piece);
        decode_utf8_encode_utf8(piece);
        lemma_be16_bytes_round(b[0], b[1]);
        assert(row[0] == f);
        assert(row.drop_first() =~= unpacked(tail)->Some_0);
        assert(b =~= seq![b[0], b[1]] + piece + tail);
    }
}

proof fn lemma_unpacked_step(rest: Seq<u8>)
    requires
        rest.len() >= 2,
        rest.len() >= 2 + be16(rest[0], rest[1]),
    ensures
        ({
            let n = be16(rest[0], rest[1]) as int;
            let piece = rest.subrange(2, 2 + n);
            unpacked(rest) == if valid_utf8(piece) {
                prepend(seq![decode_utf8(piece)], unpacked(rest.subrange(2 + n, rest.len() as int)))
            } else {
                None
            }
        }),
{
}

proof fn lemma_prepend_assoc(a: Seq<Seq<char>>, f: Seq<char>, rest: Option<Seq<Seq<char>>>)
    ensures
        prepend(a, prepend(seq![f], rest)) == prepend(a.push(f), rest),
{
    if rest is Some {
        assert(a + (seq![f] + rest->Some_0) =~= a.push(f) + rest->Some_0);
    }
}

/// Relies on `std::str::from_utf8`: it accepts exactly the valid UTF-8 byte
/// sequences, and the string it returns holds those bytes.
#[verifier::external_body]
fn string_from_utf8(bytes: &[u8]) -> (r: Option<String>)
    ensures
        r is Some <==> valid_utf8(bytes@),
        r matches Some(s) ==> encode_utf8(s@) == bytes@,
{
    match std::str::from_utf8(bytes) {
        Ok(s) => Some(s.to_owned()),
        Err(_) => None,
    }
}

/// Decodes UTF-8 bytes into a string, or `None` when they are not valid UTF-8.
pub fn decode_text(bytes: &[u8]) -> (r: Option<String>)
    ensures
        r is Some <==> valid_utf8(bytes@),
        r matches Some(s) ==> s@ == decode_utf8(bytes@),
{
    let r = string_from_utf8(bytes);
    proof {
        if r is Some {
            encode_utf8_decode_utf8(r->Some_0@);
        }
    }
    r
}

/// Packs a row; `None` when a field or the whole packed row is longer than a
/// 16-bit length can describe.
pub fn pack(row: &Vec<String>) -> (r: Option<Vec<u8>>)
    ensures
        r is Some <==> packable(row_model(row@)),
        r matches Some(b) ==> b@ == packed(row_model(row@)),
{
    let ghost model = row_model(row@);
    let mut buf: Vec<u8> = Vec::new();
    let mut i: usize = 0;
    while i < row.len()
        invariant
            i <= row.len(),
            model == row_model(row@),
            buf@ == packed(model.take(i as int)),
            buf.len() <= MAX_U16,
            forall|j: int| 0 <= j < i ==> #[trigger] encode_utf8(model[j]).len() <= MAX_U16,
        decreases row.len() - i,
    {
        let bytes = row[i].as_str().as_bytes();
        proof {
            lemma_packed_push(model.take(i as int), model[i as int]);
            assert(model.take(i as int).push(model[i as int]) =~= model.take(i + 1));
            lemma_packed_concat(model.take(i + 1), model.skip(i + 1));
            assert(model.take(i + 1) + model.skip(i + 1) =~= model);
        }
        if bytes.len() > MAX_U16 || bytes.len() + 2 > MAX_U16 - buf.len() {
            return None;
        }
        let len = u16_to_be(bytes.len() as u16);
        buf.push(len[0]);
        buf.push(len[1]);
        let mut j: usize = 0;
        while j < bytes.len()
            invariant
                j <= bytes.len(),
                buf@ == packed(model.take(i as int)) + be16_bytes(bytes@.len() as nat)
                    + bytes@.take(j as int),
            decreases bytes.len() - j,
        {
            buf.push(bytes[j]);
            assert(bytes@.take(j + 1) =~= bytes@.take(j as int).push(bytes@[j as int]));
            j += 1;
        }
        assert(bytes@.take(j as int) =~= bytes@);
        i += 1;
    }
    assert(model.take(i as int) =~= model);
    Some(buf)
}

/// Unpacks bytes into a row; `None` when they are not a well-formed packed row.
pub fn unpack(b: &[u8]) -> (r: Option<Vec<String>>)
    ensures
        r is Some <==> unpacked(b@) is Some,
        r matches Some(row) ==> row_model(row@) == unpacked(b@)->Some_0,
{
    let mut row: Vec<String> = Vec::new();
    let mut curr: usize = 0;
    assert(b@.subrange(0, b@.len() as int) =~= b@);
    while curr < b.len()
        invariant
            curr <= b.len(),
            unpacked(b@) == prepend(row_model(row@), unpacked(b@.subrange(curr as int, b@.len() as int))),
        decreases b.len() - curr,
    {
        let ghost rest = b@.subrange(curr as int, b@.len() as int);
        if b.len() - curr < 2 {
            return None;
        }
        let n = be_to_u16(b[curr], b[curr + 1]) as usize;
        if b.len() - curr - 2 < n {
            return None;
        }
        let mut piece: Vec<u8> = Vec::new();
        let mut j: usize = curr + 2;
        while j < curr + 2 + n
            invariant
                curr + 2 <= j <= curr + 2 + n <= b.len(),
                piece@ == b@.subrange(curr + 2, j as int),
            decreases curr + 2 + n - j,
        {
            piece.push(b[j]);
            assert(b@.subrange(curr + 2, j + 1) =~= b@.subrange(curr + 2, j as int).push(b@[j as int]));
            j += 1;
        }
        proof {
            assert(rest.subrange(2, 2 + n) =~= piece@);
            assert(rest.subrange(2 + n, rest.len() as int) =~= b@.subrange(
                curr + 2 + n,
                b@.len() as int,
            ));
            lemma_unpacked_step(rest);
        }
        let text = decode_text(piece.as_slice());
        match text {
            Some(s) => {
                let ghost before = row_model(row@);
                row.push(s);
                proof {
                    assert(row_model(row@) =~= before.push(s@));
                    lemma_prepend_assoc(
                        before,
                        s@,
                        unpacked(b@.subrange(curr + 2 + n, b@.len() as int)),
                    );
                }
            },
            None => {
                return None;
            },
        }
        curr = curr + 2 + n;
    }
    assert(row_model(row@) + seq![] =~= row_model(row@));
    Some(row)
}

} // verus!
