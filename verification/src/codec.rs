//! The matrix text codec. A matrix is written as its rows joined with
//! `|`, each row being its entries joined with `,`. Decoding is lenient:
//! around every element whitespace is trimmed, and a token that does not
//! parse as a non-negative integer is silently dropped — a row whose
//! every token fails becomes an empty row. Decoding never fails; even the
//! empty text decodes to one (empty) row. Encoding is the exact inverse
//! projection, and a matrix with at least one row round-trips:
//! `decode(encode(m)) == m`.

use vstd::prelude::*;

use crate::matrix::rows_model;

verus! {

/// Separates two rows in the text form.
pub const ROW_SEP: u8 = 124;

/// Separates two elements of one row in the text form.
pub const ELEM_SEP: u8 = 44;

/// An optional leading plus sign of a token.
pub const PLUS_SIGN: u8 = 43;

/// The whitespace that is trimmed around an element.
pub open spec fn is_space(b: u8) -> bool {
    b == 32 || b == 9 || b == 10 || b == 11 || b == 12 || b == 13
}

/// An ASCII decimal digit.
pub open spec fn is_digit(b: u8) -> bool {
    48 <= b <= 57
}

/// Splits `s` at every occurrence of `sep`. Any text yields at least one
/// piece; a separator at the edge or next to another yields an empty
/// piece there.
pub open spec fn split_on(s: Seq<u8>, sep: u8) -> Seq<Seq<u8>>
    decreases s.len(),
{
    if s.len() == 0 {
        seq![s]
    } else {
        let rest = split_on(s.drop_first(), sep);
        if s[0] == sep {
            seq![Seq::<u8>::empty()] + rest
        } else {
            seq![seq![s[0]] + rest[0]] + rest.drop_first()
        }
    }
}

/// Joins pieces with a single separator between neighbours.
pub open spec fn join_with(ps: Seq<Seq<u8>>, sep: u8) -> Seq<u8>
    decreases ps.len(),
{
    if ps.len() == 0 {
        Seq::empty()
    } else if ps.len() == 1 {
        ps[0]
    } else {
        ps[0] + seq![sep] + join_with(ps.drop_first(), sep)
    }
}

/// Leading whitespace removed.
pub open spec fn trim_front(s: Seq<u8>) -> Seq<u8>
    decreases s.len(),
{
    if s.len() > 0 && is_space(s[0]) {
        trim_front(s.drop_first())
    } else {
        s
    }
}

/// Trailing whitespace removed.
pub open spec fn trim_back(s: Seq<u8>) -> Seq<u8>
    decreases s.len(),
{
    if s.len() > 0 && is_space(s.last()) {
        trim_back(s.drop_last())
    } else {
        s
    }
}

/// Surrounding whitespace removed.
pub open spec fn trim_spaces(s: Seq<u8>) -> Seq<u8> {
    trim_back(trim_front(s))
}

/// Every byte is a decimal digit.
pub open spec fn all_digits(s: Seq<u8>) -> bool {
    forall|k: int| 0 <= k < s.len() ==> is_digit(#[trigger] s[k])
}

/// The value of a digit string, most significant digit first.
pub open spec fn digits_val(s: Seq<u8>) -> int
    decreases s.len(),
{
    if s.len() == 0 {
        0
    } else {
        digits_val(s.drop_last()) * 10 + (s.last() - 48)
    }
}

/// What one token parses to: surrounding whitespace is trimmed, one
/// leading plus sign is accepted, and what remains must be one or more
/// digits with a value that fits `u32` — exactly the integers the lenient
/// decoder keeps.
pub open spec fn parse_u32(t: Seq<u8>) -> Option<u32> {
    let c = trim_spaces(t);
    let body = if c.len() > 0 && c[0] == PLUS_SIGN {
        c.drop_first()
    } else {
        c
    };
    if body.len() > 0 && all_digits(body) && digits_val(body) <= u32::MAX {
        Some(digits_val(body) as u32)
    } else {
        None
    }
}

/// One row from its element tokens: parsed values in order, failures
/// dropped.
pub open spec fn row_from_tokens(ts: Seq<Seq<u8>>) -> Seq<u32>
    decreases ts.len(),
{
    if ts.len() == 0 {
        Seq::empty()
    } else {
        match parse_u32(ts[0]) {
            Some(v) => seq![v] + row_from_tokens(ts.drop_first()),
            None => row_from_tokens(ts.drop_first()),
        }
    }
}

/// One row from one piece of the text.
pub open spec fn row_of_piece(p: Seq<u8>) -> Seq<u32> {
    row_from_tokens(split_on(p, ELEM_SEP))
}

/// The rows of a piece sequence, in order.
pub open spec fn rows_of_pieces(ps: Seq<Seq<u8>>) -> Seq<Seq<u32>>
    decreases ps.len(),
{
    if ps.len() == 0 {
        Seq::empty()
    } else {
        seq![row_of_piece(ps[0])] + rows_of_pieces(ps.drop_first())
    }
}

/// What a whole text decodes to.
pub open spec fn decode_spec(s: Seq<u8>) -> Seq<Seq<u32>> {
    rows_of_pieces(split_on(s, ROW_SEP))
}

/// The decimal digits of `n`, most significant first, no sign and no
/// leading zero (except for `n == 0` itself).
pub open spec fn dec_digits(n: nat) -> Seq<u8>
    decreases n,
{
    if n < 10 {
        seq![(48 + n) as u8]
    } else {
        dec_digits(n / 10).push((48 + n % 10) as u8)
    }
}

/// One row in text form: its entries' digits joined with the element
/// separator.
pub open spec fn encode_row_spec(r: Seq<u32>) -> Seq<u8> {
    join_with(r.map_values(|v: u32| dec_digits(v as nat)), ELEM_SEP)
}

/// A whole matrix in text form: its rows joined with the row separator.
pub open spec fn encode_spec(m: Seq<Seq<u32>>) -> Seq<u8> {
    join_with(m.map_values(|r: Seq<u32>| encode_row_spec(r)), ROW_SEP)
}

/// The value of a digit string is unchanged when digits are appended to
/// a nonempty prefix only if it can grow; a prefix never exceeds the
/// whole when all bytes are digits.
proof fn lemma_digits_val_nonneg(s: Seq<u8>)
    requires
        all_digits(s),
    ensures
        digits_val(s) >= 0,
    decreases s.len(),
{
    if s.len() > 0 {
        assert(all_digits(s.drop_last())) by {
            assert(forall|k: int|
                0 <= k < s.len() - 1 ==> #[trigger] s.drop_last()[k] == s[k]);
        }
        lemma_digits_val_nonneg(s.drop_last());
    }
}

/// A digit-string prefix is worth no more than the whole string.
proof fn lemma_digits_val_prefix(s: Seq<u8>, a: int)
    requires
        all_digits(s),
        0 <= a <= s.len(),
    ensures
        digits_val(s.subrange(0, a)) <= digits_val(s),
    decreases s.len() - a,
{
    if a < s.len() {
        lemma_digits_val_prefix(s, a + 1);
        let p = s.subrange(0, a + 1);
        assert(p.drop_last() =~= s.subrange(0, a));
        assert(all_digits(p)) by {
            assert(forall|k: int| 0 <= k < p.len() ==> #[trigger] p[k] == s[k]);
        }
        lemma_digits_val_nonneg(s.subrange(0, a));
    } else {
        assert(s.subrange(0, a) =~= s);
    }
}

/// A separator-free text is one single piece.
proof fn lemma_split_sepfree(a: Seq<u8>, sep: u8)
    requires
        forall|k: int| 0 <= k < a.len() ==> a[k] != sep,
    ensures
        split_on(a, sep) == seq![a],
    decreases a.len(),
{
    if a.len() > 0 {
        assert(forall|k: int|
            0 <= k < a.drop_first().len() ==> #[trigger] a.drop_first()[k] == a[k + 1]);
        lemma_split_sepfree(a.drop_first(), sep);
        assert(seq![a[0]] + a.drop_first() =~= a);
        assert(split_on(a, sep) =~= seq![a]);
    }
}

/// Splitting separates a separator-free head piece from the rest.
proof fn lemma_split_concat(a: Seq<u8>, t: Seq<u8>, sep: u8)
    requires
        forall|k: int| 0 <= k < a.len() ==> a[k] != sep,
    ensures
        split_on(a + seq![sep] + t, sep) == seq![a] + split_on(t, sep),
    decreases a.len(),
{
    let s = a + seq![sep] + t;
    if a.len() == 0 {
        assert(s[0] == sep);
        assert(s.drop_first() =~= t);
        assert(a =~= Seq::<u8>::empty());
        assert(split_on(s, sep) == seq![Seq::<u8>::empty()] + split_on(t, sep));
        assert(split_on(s, sep) == seq![a] + split_on(t, sep));
    } else {
        assert(s[0] == a[0]);
        assert(forall|k: int|
            0 <= k < a.drop_first().len() ==> #[trigger] a.drop_first()[k] == a[k + 1]);
        lemma_split_concat(a.drop_first(), t, sep);
        assert(s.drop_first() =~= a.drop_first() + seq![sep] + t);
        let rest = split_on(s.drop_first(), sep);
        assert(rest == seq![a.drop_first()] + split_on(t, sep));
        assert(rest[0] == a.drop_first());
        assert(seq![s[0]] + rest[0] =~= a);
        assert(rest.drop_first() =~= split_on(t, sep));
        assert(split_on(s, sep) == seq![seq![s[0]] + rest[0]] + rest.drop_first());
        assert(seq![s[0]] + rest[0] == a);
        assert(split_on(s, sep) == seq![a] + split_on(t, sep));
    }
}

/// Finds the first occurrence of `sep` in `text` at or after `from` and
/// before `hi`, or returns `hi` when there is none.
#[verifier::loop_isolation(false)]
fn find_byte(text: &Vec<u8>, from: usize, hi: usize, sep: u8) -> (r: usize)
    requires
        from <= hi <= text@.len(),
    ensures
        from <= r <= hi,
        forall|k: int| from <= k < r ==> text@[k] != sep,
        r < hi ==> text@[r as int] == sep,
{
    let mut i = from;
    while i < hi
        invariant
            from <= i <= hi,
            forall|k: int| from <= k < i ==> text@[k] != sep,
        decreases hi - i,
    {
        if text[i] == sep {
            return i;
        }
        i = i + 1;
    }
    hi
}

/// Parses the token `text[lo..hi]` exactly as `parse_u32` states it.
#[verifier::loop_isolation(false)]
fn parse_token(text: &Vec<u8>, lo: usize, hi: usize) -> (r: Option<u32>)
    requires
        lo <= hi <= text@.len(),
    ensures
        r == parse_u32(text@.subrange(lo as int, hi as int)),
{
    let ghost t = text@.subrange(lo as int, hi as int);
    // trim leading whitespace
    let mut i = lo;
    while i < hi && (text[i] == 32 || (9 <= text[i] && text[i] <= 13))
        invariant
            lo <= i <= hi,
            trim_front(t) == trim_front(text@.subrange(i as int, hi as int)),
        decreases hi - i,
    {
        proof {
            let s = text@.subrange(i as int, hi as int);
            assert(s[0] == text@[i as int]);
            assert(s.drop_first() =~= text@.subrange(i as int + 1, hi as int));
        }
        i = i + 1;
    }
    proof {
        assert(trim_front(t) == text@.subrange(i as int, hi as int));
    }
    // trim trailing whitespace
    let mut j = hi;
    while j > i && (text[j - 1] == 32 || (9 <= text[j - 1] && text[j - 1] <= 13))
        invariant
            i <= j <= hi,
            trim_spaces(t) == trim_back(text@.subrange(i as int, j as int)),
        decreases j,
    {
        proof {
            let s = text@.subrange(i as int, j as int);
            assert(s.last() == text@[j as int - 1]);
            assert(s.drop_last() =~= text@.subrange(i as int, j as int - 1));
        }
        j = j - 1;
    }
    proof {
        assert(trim_spaces(t) == text@.subrange(i as int, j as int));
    }
    let ghost c = text@.subrange(i as int, j as int);
    // one leading plus sign
    let mut k = i;
    if k < j && text[k] == PLUS_SIGN {
        k = k + 1;
        proof {
            assert(c.drop_first() =~= text@.subrange(k as int, j as int));
        }
    }
    let ghost body = text@.subrange(k as int, j as int);
    if k == j {
        proof {
            assert(body.len() == 0);
        }
        return None;
    }
    // digits
    let mut acc: u64 = 0;
    let mut p = k;
    while p < j
        invariant
            k <= p <= j,
            all_digits(text@.subrange(k as int, p as int)),
            acc as int == digits_val(text@.subrange(k as int, p as int)),
            acc <= u32::MAX,
        decreases j - p,
    {
        let ch = text[p];
        if !(48 <= ch && ch <= 57) {
            proof {
                assert(body[p - k] == ch);
                assert(!all_digits(body));
            }
            return None;
        }
        proof {
            let s = text@.subrange(k as int, p as int + 1);
            assert(s.drop_last() =~= text@.subrange(k as int, p as int));
            assert(s.last() == ch);
            assert(forall|q: int|
                0 <= q < s.len() - 1 ==> #[trigger] s[q] == text@.subrange(
                    k as int,
                    p as int,
                )[q]);
        }
        acc = acc * 10 + ((ch - 48) as u64);
        p = p + 1;
        if acc > (u32::MAX as u64) {
            proof {
                if all_digits(body) {
                    assert(text@.subrange(k as int, p as int) =~= body.subrange(
                        0,
                        p as int - k as int,
                    ));
                    lemma_digits_val_prefix(body, p as int - k as int);
                }
            }
            return None;
        }
    }
    proof {
        assert(text@.subrange(k as int, p as int) =~= body);
    }
    Some(acc as u32)
}

/// Decodes the row text `text[lo..hi]`: tokens are split on the element
/// separator, trimmed and parsed, and failures are dropped.
#[verifier::loop_isolation(false)]
fn decode_row(text: &Vec<u8>, lo: usize, hi: usize) -> (r: Vec<u32>)
    requires
        lo <= hi <= text@.len(),
    ensures
        r@ == row_of_piece(text@.subrange(lo as int, hi as int)),
{
    let ghost piece = text@.subrange(lo as int, hi as int);
    let mut row: Vec<u32> = Vec::new();
    let mut pos = lo;
    let mut end = find_byte(text, lo, hi, ELEM_SEP);
    proof {
        assert(Seq::<u32>::empty() + row_from_tokens(split_on(piece, ELEM_SEP)) =~= row_of_piece(
            piece,
        ));
    }
    while end < hi
        invariant
            lo <= pos <= end <= hi,
            forall|k: int| pos <= k < end ==> text@[k] != ELEM_SEP,
            end < hi ==> text@[end as int] == ELEM_SEP,
            row@ + row_from_tokens(
                split_on(text@.subrange(pos as int, hi as int), ELEM_SEP),
            ) == row_of_piece(piece),
        decreases hi - pos,
    {
        let v = parse_token(text, pos, end);
        proof {
            let a = text@.subrange(pos as int, end as int);
            let tnext = text@.subrange(end as int + 1, hi as int);
            assert(text@.subrange(pos as int, hi as int) =~= a + seq![ELEM_SEP] + tnext);
            lemma_split_concat(a, tnext, ELEM_SEP);
            let ts = seq![a] + split_on(tnext, ELEM_SEP);
            assert(ts[0] == a);
            assert(ts.drop_first() =~= split_on(tnext, ELEM_SEP));
        }
        match v {
            Some(x) => {
                let ghost row_before = row@;
                row.push(x);
                proof {
                    let rest = row_from_tokens(
                        split_on(text@.subrange(end as int + 1, hi as int), ELEM_SEP),
                    );
                    assert(row_before + (seq![x] + rest) =~= row@ + rest);
                }
            },
            None => {},
        }
        pos = end + 1;
        end = find_byte(text, pos, hi, ELEM_SEP);
    }
    let v = parse_token(text, pos, hi);
    proof {
        let a = text@.subrange(pos as int, hi as int);
        lemma_split_sepfree(a, ELEM_SEP);
        let ts = seq![a];
        assert(ts[0] == a);
        assert(ts.drop_first() =~= Seq::<Seq<u8>>::empty());
        assert(row_from_tokens(Seq::<Seq<u8>>::empty()) == Seq::<u32>::empty());
    }
    match v {
        Some(x) => {
            let ghost row_before = row@;
            row.push(x);
            proof {
                assert(row_before + (seq![x] + Seq::<u32>::empty()) =~= row@);
            }
        },
        None => {
            proof {
                assert(row@ + Seq::<u32>::empty() =~= row@);
            }
        },
    }
    row
}

/// Decodes a whole matrix text. Decoding cannot fail and always yields
/// at least one row: rows are split on the row separator, and within a
/// row every unparsable token is dropped.
#[verifier::loop_isolation(false)]
pub fn decode(text: &Vec<u8>) -> (r: Vec<Vec<u32>>)
    ensures
        rows_model(r@) == decode_spec(text@),
        r@.len() >= 1,
{
    let hi = text.len();
    let mut rows: Vec<Vec<u32>> = Vec::new();
    let mut pos: usize = 0;
    let mut end = find_byte(text, 0, hi, ROW_SEP);
    proof {
        assert(text@.subrange(0, hi as int) =~= text@);
        assert(rows_model(rows@) =~= Seq::<Seq<u32>>::empty());
        assert(Seq::<Seq<u32>>::empty() + rows_of_pieces(split_on(text@, ROW_SEP))
            =~= rows_of_pieces(split_on(text@, ROW_SEP)));
    }
    while end < hi
        invariant
            pos <= end <= hi,
            forall|k: int| pos <= k < end ==> text@[k] != ROW_SEP,
            end < hi ==> text@[end as int] == ROW_SEP,
            rows@.len() == 0 ==> pos == 0,
            rows_model(rows@) + rows_of_pieces(
                split_on(text@.subrange(pos as int, hi as int), ROW_SEP),
            ) == decode_spec(text@),
        decreases hi - pos,
    {
        let row = decode_row(text, pos, end);
        proof {
            let a = text@.subrange(pos as int, end as int);
            let tnext = text@.subrange(end as int + 1, hi as int);
            assert(text@.subrange(pos as int, hi as int) =~= a + seq![ROW_SEP] + tnext);
            lemma_split_concat(a, tnext, ROW_SEP);
            let ps = seq![a] + split_on(tnext, ROW_SEP);
            assert(ps[0] == a);
            assert(ps.drop_first() =~= split_on(tnext, ROW_SEP));
        }
        let ghost rows_before = rows@;
        rows.push(row);
        proof {
            let rest = rows_of_pieces(
                split_on(text@.subrange(end as int + 1, hi as int), ROW_SEP),
            );
            assert(rows_model(rows@) =~= rows_model(rows_before).push(row@));
            assert(rows_model(rows_before) + (seq![row@] + rest) =~= rows_model(rows@) + rest);
        }
        pos = end + 1;
        end = find_byte(text, pos, hi, ROW_SEP);
    }
    let row = decode_row(text, pos, hi);
    proof {
        let a = text@.subrange(pos as int, hi as int);
        lemma_split_sepfree(a, ROW_SEP);
        let ps = seq![a];
        assert(ps[0] == a);
        assert(ps.drop_first() =~= Seq::<Seq<u8>>::empty());
        assert(rows_of_pieces(Seq::<Seq<u8>>::empty()) == Seq::<Seq<u32>>::empty());
    }
    let ghost rows_before = rows@;
    rows.push(row);
    proof {
        assert(rows_model(rows@) =~= rows_model(rows_before).push(row@));
        assert(rows_model(rows_before) + (seq![row@] + Seq::<Seq<u32>>::empty()) =~= rows_model(
            rows@,
        ));
    }
    rows
}

/// Joining after appending a piece appends a separator and the piece.
proof fn lemma_join_push(ps: Seq<Seq<u8>>, p: Seq<u8>, sep: u8)
    ensures
        join_with(ps.push(p), sep) == if ps.len() == 0 {
            p
        } else {
            join_with(ps, sep) + seq![sep] + p
        },
    decreases ps.len(),
{
    let w = ps.push(p);
    if ps.len() == 0 {
        assert(w[0] == p);
    } else {
        lemma_join_push(ps.drop_first(), p, sep);
        assert(w.drop_first() =~= ps.drop_first().push(p));
        assert(w[0] == ps[0]);
        if ps.len() == 1 {
            assert(join_with(w, sep) == ps[0] + seq![sep] + join_with(w.drop_first(), sep));
            assert(join_with(ps, sep) == ps[0]);
        } else {
            assert(join_with(w, sep) == ps[0] + seq![sep] + join_with(w.drop_first(), sep));
            assert(join_with(ps.drop_first().push(p), sep) == join_with(ps.drop_first(), sep)
                + seq![sep] + p);
            assert(ps[0] + seq![sep] + (join_with(ps.drop_first(), sep) + seq![sep] + p) =~= (
            ps[0] + seq![sep] + join_with(ps.drop_first(), sep)) + seq![sep] + p);
            assert(join_with(ps, sep) == ps[0] + seq![sep] + join_with(ps.drop_first(), sep));
        }
    }
}

/// Appends the decimal digits of `v`, most significant first.
fn push_decimal(out: &mut Vec<u8>, v: u32)
    ensures
        final(out)@ == old(out)@ + dec_digits(v as nat),
    decreases v,
{
    if v < 10 {
        out.push(48 + v as u8);
        proof {
            assert(old(out)@.push((48 + v as nat) as u8) =~= old(out)@ + dec_digits(v as nat));
        }
    } else {
        push_decimal(out, v / 10);
        out.push(48 + (v % 10) as u8);
        proof {
            assert((v / 10) as nat == (v as nat) / 10);
            assert((v % 10) as nat == (v as nat) % 10);
            assert((old(out)@ + dec_digits((v as nat) / 10)).push((48 + (v as nat) % 10) as u8)
                =~= old(out)@ + dec_digits(v as nat));
        }
    }
}

/// Encodes a matrix as text: rows joined with the row separator, each
/// row its entries' decimal digits joined with the element separator.
/// This is the exact inverse projection of decoding.
#[verifier::loop_isolation(false)]
pub fn encode(rows: &Vec<Vec<u32>>) -> (r: Vec<u8>)
    ensures
        r@ == encode_spec(rows_model(rows@)),
{
    let ghost m = rows_model(rows@);
    let ghost enc_row = |r: Seq<u32>| encode_row_spec(r);
    let mut out: Vec<u8> = Vec::new();
    let mut i: usize = 0;
    proof {
        assert(m.subrange(0, 0).map_values(enc_row) =~= Seq::<Seq<u8>>::empty());
        assert(out@ =~= join_with(m.subrange(0, 0).map_values(enc_row), ROW_SEP));
    }
    while i < rows.len()
        invariant
            i <= rows@.len(),
            out@ == join_with(m.subrange(0, i as int).map_values(enc_row), ROW_SEP),
        decreases rows@.len() - i,
    {
        if i > 0 {
            out.push(ROW_SEP);
        }
        let ghost base = out@;
        let r = &rows[i];
        let mut j: usize = 0;
        let ghost row = m[i as int];
        let ghost dd = |v: u32| dec_digits(v as nat);
        proof {
            assert(row.subrange(0, 0).map_values(dd) =~= Seq::<Seq<u8>>::empty());
            assert(base + join_with(row.subrange(0, 0).map_values(dd), ELEM_SEP) =~= base);
        }
        while j < r.len()
            invariant
                j <= r@.len(),
                r@ == row,
                i < rows@.len(),
                out@ == base + join_with(row.subrange(0, j as int).map_values(dd), ELEM_SEP),
            decreases r@.len() - j,
        {
            if j > 0 {
                out.push(ELEM_SEP);
            }
            let ghost before = out@;
            push_decimal(&mut out, r[j]);
            proof {
                let ps = row.subrange(0, j as int).map_values(dd);
                lemma_join_push(ps, dd(row[j as int]), ELEM_SEP);
                assert(row.subrange(0, j as int + 1).map_values(dd) =~= ps.push(
                    dd(row[j as int]),
                ));
                if j == 0 {
                    assert(ps.len() == 0);
                    assert(out@ =~= base + join_with(ps.push(dd(row[j as int])), ELEM_SEP));
                } else {
                    assert(out@ =~= base + join_with(ps.push(dd(row[j as int])), ELEM_SEP));
                }
            }
            j = j + 1;
        }
        proof {
            assert(row.subrange(0, r@.len() as int) =~= row);
            assert(base + join_with(row.map_values(dd), ELEM_SEP) == base + encode_row_spec(row));
            let ps = m.subrange(0, i as int).map_values(enc_row);
            lemma_join_push(ps, encode_row_spec(row), ROW_SEP);
            assert(m.subrange(0, i as int + 1).map_values(enc_row) =~= ps.push(
                encode_row_spec(row),
            ));
            if i == 0 {
                assert(ps.len() == 0);
                assert(out@ =~= join_with(ps.push(encode_row_spec(row)), ROW_SEP));
            } else {
                assert(out@ =~= join_with(ps.push(encode_row_spec(row)), ROW_SEP));
            }
        }
        i = i + 1;
    }
    proof {
        assert(m.subrange(0, rows@.len() as int) =~= m);
    }
    out
}

/// The decimal digits of a number are nonempty, are digits, and are
/// worth the number itself.
proof fn lemma_dec_digits_props(n: nat)
    ensures
        dec_digits(n).len() >= 1,
        all_digits(dec_digits(n)),
        digits_val(dec_digits(n)) == n,
    decreases n,
{
    if n < 10 {
        let s = dec_digits(n);
        assert(s == seq![(48 + n) as u8]);
        assert(s.drop_last() =~= Seq::<u8>::empty());
        assert(digits_val(Seq::<u8>::empty()) == 0);
        assert(s.last() == (48 + n) as u8);
    } else {
        lemma_dec_digits_props(n / 10);
        vstd::arithmetic::div_mod::lemma_fundamental_div_mod(n as int, 10);
        let s = dec_digits(n);
        let head = dec_digits(n / 10);
        let d = (48 + n % 10) as u8;
        assert(s == head.push(d));
        assert(s.drop_last() =~= head);
        assert(s.last() == d);
        assert(all_digits(s)) by {
            assert(forall|k: int| 0 <= k < head.len() ==> #[trigger] s[k] == head[k]);
        }
    }
}

/// The digits of a value parse back to exactly that value: digits are
/// not whitespace and not a sign, so trimming and sign handling leave
/// them untouched.
proof fn lemma_parse_of_dec(n: nat)
    requires
        n <= u32::MAX,
    ensures
        parse_u32(dec_digits(n)) == Some(n as u32),
{
    lemma_dec_digits_props(n);
    let s = dec_digits(n);
    assert(is_digit(s[0]));
    assert(is_digit(s.last()));
    assert(trim_front(s) == s);
    assert(trim_back(s) == s);
}

/// A token list of pure digit strings parses back to its values.
proof fn lemma_row_tokens_roundtrip(r: Seq<u32>)
    ensures
        row_from_tokens(r.map_values(|v: u32| dec_digits(v as nat))) == r,
    decreases r.len(),
{
    let dd = |v: u32| dec_digits(v as nat);
    let ts = r.map_values(dd);
    if r.len() == 0 {
        assert(ts.len() == 0);
        assert(row_from_tokens(ts) =~= r);
    } else {
        lemma_row_tokens_roundtrip(r.drop_first());
        assert(ts[0] == dec_digits(r[0] as nat));
        lemma_parse_of_dec(r[0] as nat);
        assert(parse_u32(ts[0]) == Some(r[0]));
        assert(ts.drop_first() =~= r.drop_first().map_values(dd));
        assert(seq![r[0]] + r.drop_first() =~= r);
    }
}

/// Joined digit pieces hold nothing but digits and separators.
proof fn lemma_join_digit_bytes(ps: Seq<Seq<u8>>, sep: u8)
    requires
        forall|idx: int| 0 <= idx < ps.len() ==> all_digits(#[trigger] ps[idx]),
    ensures
        forall|k: int|
            0 <= k < join_with(ps, sep).len() ==> (is_digit(#[trigger] join_with(ps, sep)[k])
                || join_with(ps, sep)[k] == sep),
    decreases ps.len(),
{
    if ps.len() == 0 {
    } else if ps.len() == 1 {
        assert(join_with(ps, sep) == ps[0]);
    } else {
        assert(forall|idx: int|
            0 <= idx < ps.drop_first().len() ==> #[trigger] ps.drop_first()[idx] == ps[idx
                + 1]);
        lemma_join_digit_bytes(ps.drop_first(), sep);
        let j = join_with(ps, sep);
        let tail = join_with(ps.drop_first(), sep);
        assert(j == ps[0] + seq![sep] + tail);
        assert forall|k: int| 0 <= k < j.len() implies (is_digit(#[trigger] j[k]) || j[k]
            == sep) by {
            if k < ps[0].len() {
                assert(j[k] == ps[0][k]);
            } else if k == ps[0].len() {
                assert(j[k] == sep);
            } else {
                assert(j[k] == tail[k - ps[0].len() - 1]);
            }
        }
    }
}

/// Splitting undoes joining when every piece is separator-free and there
/// is at least one piece.
proof fn lemma_split_of_join(ps: Seq<Seq<u8>>, sep: u8)
    requires
        ps.len() >= 1,
        forall|idx: int, k: int|
            0 <= idx < ps.len() && 0 <= k < ps[idx].len() ==> #[trigger] ps[idx][k] != sep,
    ensures
        split_on(join_with(ps, sep), sep) == ps,
    decreases ps.len(),
{
    if ps.len() == 1 {
        assert(join_with(ps, sep) == ps[0]);
        assert(forall|k: int| 0 <= k < ps[0].len() ==> #[trigger] ps[0][k] != sep);
        lemma_split_sepfree(ps[0], sep);
        assert(seq![ps[0]] =~= ps);
    } else {
        assert(forall|idx: int|
            0 <= idx < ps.drop_first().len() ==> #[trigger] ps.drop_first()[idx] == ps[idx
                + 1]);
        lemma_split_of_join(ps.drop_first(), sep);
        let tail = join_with(ps.drop_first(), sep);
        assert(join_with(ps, sep) == ps[0] + seq![sep] + tail);
        assert(forall|k: int| 0 <= k < ps[0].len() ==> #[trigger] ps[0][k] != sep);
        lemma_split_concat(ps[0], tail, sep);
        assert(seq![ps[0]] + ps.drop_first() =~= ps);
    }
}

/// One row survives the trip through its text form.
proof fn lemma_row_roundtrip(r: Seq<u32>)
    ensures
        row_of_piece(encode_row_spec(r)) == r,
{
    let dd = |v: u32| dec_digits(v as nat);
    let ps = r.map_values(dd);
    if r.len() == 0 {
        assert(ps.len() == 0);
        assert(encode_row_spec(r) == Seq::<u8>::empty());
        let pieces = split_on(Seq::<u8>::empty(), ELEM_SEP);
        assert(pieces == seq![Seq::<u8>::empty()]);
        assert(trim_front(Seq::<u8>::empty()) == Seq::<u8>::empty());
        assert(trim_back(Seq::<u8>::empty()) == Seq::<u8>::empty());
        assert(parse_u32(Seq::<u8>::empty()) is None);
        assert(pieces.drop_first() =~= Seq::<Seq<u8>>::empty());
        assert(row_from_tokens(Seq::<Seq<u8>>::empty()) == Seq::<u32>::empty());
        assert(row_of_piece(encode_row_spec(r)) =~= r);
    } else {
        assert forall|idx: int, k: int|
            0 <= idx < ps.len() && 0 <= k < ps[idx].len() implies #[trigger] ps[idx][k]
            != ELEM_SEP by {
            lemma_dec_digits_props(r[idx] as nat);
            assert(ps[idx] == dec_digits(r[idx] as nat));
            assert(is_digit(ps[idx][k]));
        }
        lemma_split_of_join(ps, ELEM_SEP);
        lemma_row_tokens_roundtrip(r);
    }
}

/// Every row of a piece list built from encoded rows decodes back.
proof fn lemma_rows_of_enc(m: Seq<Seq<u32>>)
    ensures
        rows_of_pieces(m.map_values(|r: Seq<u32>| encode_row_spec(r))) == m,
    decreases m.len(),
{
    let enc_row = |r: Seq<u32>| encode_row_spec(r);
    let ps = m.map_values(enc_row);
    if m.len() == 0 {
        assert(rows_of_pieces(ps) =~= m);
    } else {
        lemma_rows_of_enc(m.drop_first());
        assert(ps[0] == encode_row_spec(m[0]));
        lemma_row_roundtrip(m[0]);
        assert(ps.drop_first() =~= m.drop_first().map_values(enc_row));
        assert(seq![m[0]] + m.drop_first() =~= m);
    }
}

/// The round-trip law: any matrix with at least one row, written out as
/// text and decoded again, is unchanged. (The empty matrix has no text
/// form of its own: its encoding is the empty text, which decodes to one
/// empty row.)
pub proof fn lemma_round_trip(m: Seq<Seq<u32>>)
    requires
        m.len() >= 1,
    ensures
        decode_spec(encode_spec(m)) == m,
{
    let enc_row = |r: Seq<u32>| encode_row_spec(r);
    let ps = m.map_values(enc_row);
    assert forall|idx: int, k: int|
        0 <= idx < ps.len() && 0 <= k < ps[idx].len() implies #[trigger] ps[idx][k]
        != ROW_SEP by {
        let r = m[idx];
        let dd = |v: u32| dec_digits(v as nat);
        assert forall|q: int| 0 <= q < r.map_values(dd).len() implies all_digits(
            #[trigger] r.map_values(dd)[q],
        ) by {
            lemma_dec_digits_props(r[q] as nat);
        }
        lemma_join_digit_bytes(r.map_values(dd), ELEM_SEP);
        assert(ps[idx] == join_with(r.map_values(dd), ELEM_SEP));
        assert(is_digit(ps[idx][k]) || ps[idx][k] == ELEM_SEP);
    }
    lemma_split_of_join(ps, ROW_SEP);
    lemma_rows_of_enc(m);
}

} // verus!
