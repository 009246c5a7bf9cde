//! Splitting of delimited text lines into fields.
use vstd::prelude::*;
use vstd::utf8::*;

use crate::codec::decode_text;

verus! {

/// The pieces of `b` between occurrences of `sep`; splitting an empty sequence
/// gives one empty piece.
pub open spec fn split_on(b: Seq<u8>, sep: u8) -> Seq<Seq<u8>>
    decreases b.len(),
{
    if b.len() == 0 {
        seq![seq![]]
    } else {
        let init = split_on(b.drop_last(), sep);
        if b.last() == sep {
            init.push(seq![])
        } else {
            init.update(init.len() - 1, init.last().push(b.last()))
        }
    }
}

/// The characters with the Unicode property White_Space.
pub open spec fn is_white_space(c: char) -> bool {
    let u = c as u32;
    (0x09 <= u <= 0x0d) || u == 0x20 || u == 0x85 || u == 0xa0 || u == 0x1680 || (0x2000 <= u
        <= 0x200a) || u == 0x2028 || u == 0x2029 || u == 0x202f || u == 0x205f || u == 0x3000
}

/// `s` without its leading white space.
pub open spec fn trim_start(s: Seq<char>) -> Seq<char>
    decreases s.len(),
{
    if s.len() > 0 && is_white_space(s[0]) {
        trim_start(s.drop_first())
    } else {
        s
    }
}

/// `s` without its trailing white space.
pub open spec fn trim_end(s: Seq<char>) -> Seq<char>
    decreases s.len(),
{
    if s.len() > 0 && is_white_space(s.last()) {
        trim_end(s.drop_last())
    } else {
        s
    }
}

/// `s` without leading and trailing white space.
pub open spec fn trimmed(s: Seq<char>) -> Seq<char> {
    trim_end(trim_start(s))
}

/// Relies on `str::trim`, which removes leading and trailing characters with
/// the Unicode property White_Space.
#[verifier::external_body]
fn trim_text(s: &str) -> (r: String)
    ensures
        r@ == trimmed(s@),
{
    s.trim().to_owned()
}

/// The comma separator of a text line.
pub const COMMA: u8 = 0x2c;

/// Splits `line` at every byte `sep`.
pub fn split_bytes(line: &[u8], sep: u8) -> (r: Vec<Vec<u8>>)
    ensures
        r@.map_values(|p: Vec<u8>| p@) == split_on(line@, sep),
{
    let mut pieces: Vec<Vec<u8>> = Vec::new();
    let mut cur: Vec<u8> = Vec::new();
    let mut i: usize = 0;
    assert(line@.take(0) =~= Seq::<u8>::empty());
    assert(pieces@.map_values(|p: Vec<u8>| p@).push(cur@) =~= split_on(line@.take(0), sep));
    while i < line.len()
        invariant
            i <= line@.len(),
            pieces@.map_values(|p: Vec<u8>| p@).push(cur@) == split_on(line@.take(i as int), sep),
        decreases line@.len() - i,
    {
        let ghost before = pieces@.map_values(|p: Vec<u8>| p@);
        let ghost t = line@.take(i + 1);
        assert(t.drop_last() =~= line@.take(i as int));
        assert(t.last() == line@[i as int]);
        if line[i] == sep {
            let done = cur;
            pieces.push(done);
            cur = Vec::new();
            assert(pieces@.map_values(|p: Vec<u8>| p@) =~= before.push(done@));
            assert(pieces@.map_values(|p: Vec<u8>| p@).push(cur@) =~= split_on(t, sep));
        } else {
            let ghost old_cur = cur@;
            cur.push(line[i]);
            assert(pieces@.map_values(|p: Vec<u8>| p@).push(cur@) =~= before.push(old_cur).update(
                before.len() as int,
                old_cur.push(line@[i as int]),
            ));
        }
        i += 1;
    }
    pieces.push(cur);
    assert(line@.take(i as int) =~= line@);
    assert(pieces@.map_values(|p: Vec<u8>| p@) =~= split_on(line@, sep));
    pieces
}

/// All pieces are valid UTF-8.
pub open spec fn all_text(pieces: Seq<Seq<u8>>) -> bool {
    forall|i: int| 0 <= i < pieces.len() ==> #[trigger] valid_utf8(pieces[i])
}

/// Fields of a comma-separated line, decoded as text; `trim` also removes
/// whitespace around each field.
pub open spec fn line_fields(line: Seq<u8>, trim: bool) -> Seq<Seq<char>> {
    split_on(line, COMMA).map_values(
        |p: Seq<u8>|
            if trim {
                trimmed(decode_utf8(p))
            } else {
                decode_utf8(p)
            },
    )
}

/// Splits a comma-separated line into text fields, trimming each when `trim`
/// holds; `None` when a field is not valid UTF-8.
pub fn parse_fields(line: &[u8], trim: bool) -> (r: Option<Vec<String>>)
    ensures
        r is Some <==> all_text(split_on(line@, COMMA)),
        r matches Some(fields) ==> fields@.map_values(|s: String| s@) == line_fields(line@, trim),
{
    let pieces = split_bytes(line, COMMA);
    let ghost model = split_on(line@, COMMA);
    let mut fields: Vec<String> = Vec::new();
    let mut i: usize = 0;
    let n = pieces.len();
    while i < n
        invariant
            n == pieces@.len(),
            i <= n,
            pieces@.map_values(|p: Vec<u8>| p@) == model,
            model == split_on(line@, COMMA),
            forall|j: int| 0 <= j < i ==> #[trigger] valid_utf8(model[j]),
            fields@.map_values(|s: String| s@) == line_fields(line@, trim).take(i as int),
        decreases n - i,
    {
        assert(model[i as int] == pieces@[i as int]@);
        let text = decode_text(pieces[i].as_slice());
        match text {
            Some(s) => {
                let ghost before = fields@.map_values(|s: String| s@);
                let f = if trim {
                    trim_text(s.as_str())
                } else {
                    s
                };
                let ghost lf = line_fields(line@, trim);
                assert(s@ == decode_utf8(model[i as int]));
                assert(lf[i as int] == f@);
                fields.push(f);
                assert(fields@.map_values(|s: String| s@) =~= before.push(f@));
                assert(lf.take(i + 1) =~= lf.take(i as int).push(lf[i as int]));
            },
            None => {
                assert(!valid_utf8(model[i as int]));
                return None;
            },
        }
        i += 1;
    }
    assert(line_fields(line@, trim).take(i as int) =~= line_fields(line@, trim));
    Some(fields)
}

} // verus!
