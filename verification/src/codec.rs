use vstd::prelude::*;
use vstd::string::StrSliceExecFns;
use vstd::string::StringExecFns;

verus! {

// The stored text encodings of the ledger: every value written to a storage
// row is produced by the functions of this module, and their contracts give
// the text exactly.

/// The decimal digit character of a value below ten.
pub open spec fn digit_char(d: nat) -> char {
    if d == 0 {
        '0'
    } else if d == 1 {
        '1'
    } else if d == 2 {
        '2'
    } else if d == 3 {
        '3'
    } else if d == 4 {
        '4'
    } else if d == 5 {
        '5'
    } else if d == 6 {
        '6'
    } else if d == 7 {
        '7'
    } else if d == 8 {
        '8'
    } else {
        '9'
    }
}

/// The decimal rendering of a natural number, most significant digit first.
pub open spec fn dec_of(n: nat) -> Seq<char>
    decreases n,
{
    if n < 10 {
        seq![digit_char(n)]
    } else {
        dec_of(n / 10) + seq![digit_char(n % 10)]
    }
}

/// The digit characters of a digit stack, read from the top down.
spec fn rev_digit_chars(ds: Seq<u8>) -> Seq<char>
    decreases ds.len(),
{
    if ds.len() == 0 {
        Seq::<char>::empty()
    } else {
        seq![digit_char(ds.last() as nat)] + rev_digit_chars(ds.drop_last())
    }
}

/// How one payload character stands inside a quoted field: a quote or a
/// backslash gets a backslash before it; every other character stands as
/// itself.
pub open spec fn escape_char(c: char) -> Seq<char> {
    if c == '"' {
        seq!['\\', '"']
    } else if c == '\\' {
        seq!['\\', '\\']
    } else {
        seq![c]
    }
}

/// The escaped form of a payload field.
pub open spec fn escape(s: Seq<char>) -> Seq<char>
    decreases s.len(),
{
    if s.len() == 0 {
        Seq::<char>::empty()
    } else {
        escape(s.drop_last()) + escape_char(s.last())
    }
}

/// A payload field between quotes, escaped.
pub open spec fn quoted(s: Seq<char>) -> Seq<char> {
    seq!['"'] + escape(s) + seq!['"']
}

/// The stored text of a transaction payload.
pub open spec fn transaction_text(src: Seq<char>, dst: Seq<char>, amount: Seq<char>) -> Seq<char> {
    "{\"src\":"@ + quoted(src) + ",\"dst\":"@ + quoted(dst) + ",\"amount\":"@ + quoted(amount)
        + "}"@
}

/// The stored text of an inclusive position range.
pub open spec fn range_text(begin: int, end: int) -> Seq<char> {
    "{\"begin\":"@ + dec_of(begin as nat) + ",\"end\":"@ + dec_of(end as nat) + "}"@
}

/// The stored text of a byte string, without the brackets: the bytes'
/// decimal values, separated by commas.
pub open spec fn bytes_text_inner(bytes: Seq<u8>) -> Seq<char>
    decreases bytes.len(),
{
    if bytes.len() == 0 {
        Seq::<char>::empty()
    } else if bytes.len() == 1 {
        dec_of(bytes[0] as nat)
    } else {
        bytes_text_inner(bytes.drop_last()) + seq![','] + dec_of(bytes.last() as nat)
    }
}

/// The stored text of a byte string.
pub open spec fn bytes_text(bytes: Seq<u8>) -> Seq<char> {
    seq!['['] + bytes_text_inner(bytes) + seq![']']
}

/// Appends one decimal digit character.
fn append_digit(out: &mut String, d: u8)
    requires
        d < 10,
    ensures
        final(out)@ == old(out)@ + seq![digit_char(d as nat)],
{
    if d == 0 {
        out.append("0");
        proof {
            reveal_strlit("0");
            assert("0"@ =~= seq![digit_char(0)]);
        }
    } else if d == 1 {
        out.append("1");
        proof {
            reveal_strlit("1");
            assert("1"@ =~= seq![digit_char(1)]);
        }
    } else if d == 2 {
        out.append("2");
        proof {
            reveal_strlit("2");
            assert("2"@ =~= seq![digit_char(2)]);
        }
    } else if d == 3 {
        out.append("3");
        proof {
            reveal_strlit("3");
            assert("3"@ =~= seq![digit_char(3)]);
        }
    } else if d == 4 {
        out.append("4");
        proof {
            reveal_strlit("4");
            assert("4"@ =~= seq![digit_char(4)]);
        }
    } else if d == 5 {
        out.append("5");
        proof {
            reveal_strlit("5");
            assert("5"@ =~= seq![digit_char(5)]);
        }
    } else if d == 6 {
        out.append("6");
        proof {
            reveal_strlit("6");
            assert("6"@ =~= seq![digit_char(6)]);
        }
    } else if d == 7 {
        out.append("7");
        proof {
            reveal_strlit("7");
            assert("7"@ =~= seq![digit_char(7)]);
        }
    } else if d == 8 {
        out.append("8");
        proof {
            reveal_strlit("8");
            assert("8"@ =~= seq![digit_char(8)]);
        }
    } else {
        out.append("9");
        proof {
            reveal_strlit("9");
            assert("9"@ =~= seq![digit_char(9)]);
        }
    }
}

/// Appends the decimal rendering of a value, most significant digit first.
pub(crate) fn append_dec(out: &mut String, n: u64)
    ensures
        final(out)@ == old(out)@ + dec_of(n as nat),
{
    if n == 0 {
        append_digit(out, 0);
        return ;
    }
    let mut m: u64 = n;
    let mut digits: Vec<u8> = Vec::new();
    while m > 0
        invariant
            dec_of(n as nat) == (if m > 0 {
                dec_of(m as nat) + rev_digit_chars(digits@)
            } else {
                rev_digit_chars(digits@)
            }),
            forall|j: int| 0 <= j < digits@.len() ==> digits@[j] < 10,
        decreases m,
    {
        let ghost dpre = digits@;
        let ghost mpre = m;
        let d: u8 = (m % 10) as u8;
        digits.push(d);
        m = m / 10;
        proof {
            assert(digits@.drop_last() =~= dpre);
            assert(rev_digit_chars(digits@) == seq![digit_char(d as nat)] + rev_digit_chars(dpre));
            if mpre >= 10 {
                assert(dec_of(mpre as nat) == dec_of((mpre / 10) as nat) + seq![
                    digit_char((mpre % 10) as nat),
                ]);
                assert(dec_of(mpre as nat) + rev_digit_chars(dpre) =~= dec_of(m as nat)
                    + rev_digit_chars(digits@));
            } else {
                assert(dec_of(mpre as nat) =~= seq![digit_char(d as nat)]);
                assert(dec_of(mpre as nat) + rev_digit_chars(dpre) =~= rev_digit_chars(digits@));
            }
        }
    }
    while digits.len() > 0
        invariant
            out@ + rev_digit_chars(digits@) == old(out)@ + dec_of(n as nat),
            forall|j: int| 0 <= j < digits@.len() ==> digits@[j] < 10,
        decreases digits@.len(),
    {
        let ghost dpre = digits@;
        let ghost opre = out@;
        let d: u8 = digits.pop().unwrap();
        append_digit(out, d);
        proof {
            assert(rev_digit_chars(dpre) == seq![digit_char(d as nat)] + rev_digit_chars(digits@));
            assert(out@ + rev_digit_chars(digits@) =~= opre + rev_digit_chars(dpre));
        }
    }
    proof {
        assert(rev_digit_chars(digits@) =~= Seq::<char>::empty());
        assert(out@ =~= old(out)@ + dec_of(n as nat));
    }
}

/// Appends one payload field in its quoted, escaped form.
pub(crate) fn append_quoted(out: &mut String, field: &str)
    ensures
        final(out)@ == old(out)@ + quoted(field@),
{
    out.append("\"");
    proof {
        reveal_strlit("\"");
        assert("\""@ =~= seq!['"']);
        assert(escape(field@.subrange(0, 0)) =~= Seq::<char>::empty());
        assert(out@ =~= old(out)@ + seq!['"'] + escape(field@.subrange(0, 0)));
    }
    let n: usize = field.unicode_len();
    let mut i: usize = 0;
    while i < n
        invariant
            n == field@.len(),
            i <= n,
            out@ == old(out)@ + seq!['"'] + escape(field@.subrange(0, i as int)),
        decreases n - i,
    {
        let c: char = field.get_char(i);
        if c == '"' {
            out.append("\\\"");
            proof {
                reveal_strlit("\\\"");
                assert("\\\""@ =~= seq!['\\', '"']);
            }
        } else if c == '\\' {
            out.append("\\\\");
            proof {
                reveal_strlit("\\\\");
                assert("\\\\"@ =~= seq!['\\', '\\']);
            }
        } else {
            let piece = field.substring_char(i, i + 1);
            out.append(piece);
            proof {
                assert(field@.subrange(i as int, i as int + 1) =~= seq![field@[i as int]]);
            }
        }
        proof {
            let ghost pre = field@.subrange(0, i as int);
            let ghost cur = field@.subrange(0, i as int + 1);
            assert(cur.drop_last() =~= pre);
            assert(cur.last() == field@[i as int]);
            assert(escape(cur) == escape(pre) + escape_char(field@[i as int]));
            assert(out@ =~= old(out)@ + seq!['"'] + escape(cur));
        }
        i = i + 1;
    }
    out.append("\"");
    proof {
        reveal_strlit("\"");
        assert("\""@ =~= seq!['"']);
        assert(field@.subrange(0, n as int) =~= field@);
        assert(out@ =~= old(out)@ + quoted(field@));
    }
}

/// Writes the stored text of a byte string.
pub(crate) fn bytes_to_text(bytes: &[u8]) -> (r: String)
    ensures
        r@ == bytes_text(bytes@),
{
    let mut out = String::new();
    out.append("[");
    proof {
        reveal_strlit("[");
        assert("["@ =~= seq!['[']);
        assert(bytes_text_inner(bytes@.subrange(0, 0)) =~= Seq::<char>::empty());
        assert(out@ =~= seq!['['] + bytes_text_inner(bytes@.subrange(0, 0)));
    }
    let mut i: usize = 0;
    while i < bytes.len()
        invariant
            i <= bytes@.len(),
            out@ == seq!['['] + bytes_text_inner(bytes@.subrange(0, i as int)),
        decreases bytes@.len() - i,
    {
        if i > 0 {
            out.append(",");
            proof {
                reveal_strlit(",");
                assert(","@ =~= seq![',']);
            }
        }
        let b: u8 = bytes[i];
        append_dec(&mut out, b as u64);
        proof {
            let ghost pre = bytes@.subrange(0, i as int);
            let ghost cur = bytes@.subrange(0, i as int + 1);
            assert(cur.drop_last() =~= pre);
            assert(cur.last() == bytes@[i as int]);
            if i == 0 {
                assert(bytes_text_inner(cur) == dec_of(bytes@[0] as nat));
            } else {
                assert(bytes_text_inner(cur) == bytes_text_inner(pre) + seq![','] + dec_of(
                    bytes@[i as int] as nat,
                ));
            }
            assert(out@ =~= seq!['['] + bytes_text_inner(cur));
        }
        i = i + 1;
    }
    out.append("]");
    proof {
        reveal_strlit("]");
        assert("]"@ =~= seq![']']);
        assert(bytes@.subrange(0, bytes@.len() as int) =~= bytes@);
        assert(out@ =~= bytes_text(bytes@));
    }
    out
}

/// Writes the stored text of a transaction payload.
pub(crate) fn transaction_to_text(src: &str, dst: &str, amount: &str) -> (r: String)
    ensures
        r@ == transaction_text(src@, dst@, amount@),
{
    let mut out = String::new();
    out.append("{\"src\":");
    append_quoted(&mut out, src);
    out.append(",\"dst\":");
    append_quoted(&mut out, dst);
    out.append(",\"amount\":");
    append_quoted(&mut out, amount);
    out.append("}");
    proof {
        assert(out@ =~= transaction_text(src@, dst@, amount@));
    }
    out
}

/// The escaped form, read from the front: the first character's escape,
/// then the rest of the escaped field.
proof fn lemma_escape_front(s: Seq<char>)
    requires
        s.len() > 0,
    ensures
        escape(s) == escape_char(s.first()) + escape(s.drop_first()),
    decreases s.len(),
{
    if s.len() == 1 {
        assert(s.drop_last() =~= Seq::<char>::empty());
        assert(s.drop_first() =~= Seq::<char>::empty());
        assert(escape(s) =~= escape_char(s.first()) + escape(s.drop_first()));
    } else {
        lemma_escape_front(s.drop_last());
        assert(s.drop_last().first() == s.first());
        assert(s.drop_first().drop_last() =~= s.drop_last().drop_first());
        assert(s.drop_first().last() == s.last());
        assert(escape(s.drop_first()) == escape(s.drop_first().drop_last()) + escape_char(
            s.drop_first().last(),
        ));
        assert(escape(s) =~= escape_char(s.first()) + escape(s.drop_first()));
    }
}

/// Whether a quoted field with content `f` stands at `start`, its closing
/// quote followed by `rest`.
spec fn quoted_from(s: Seq<char>, start: int, f: Seq<char>, rest: Seq<char>) -> bool {
    s.skip(start) == escape(f) + seq!['"'] + rest
}

/// Advances past an expected literal piece; it succeeds exactly when the
/// piece stands at `start`.
fn expect_lit(s: &str, start: usize, lit: &str) -> (r: Option<usize>)
    ensures
        r matches Some(i) ==> start <= i <= s@.len() && i == start + lit@.len() && s@.subrange(start as int, i as int) == lit@,
        (start + lit@.len() <= s@.len() && s@.subrange(start as int, start as int + lit@.len() as int) == lit@) ==> r is Some,
{
    let n: usize = s.unicode_len();
    let m: usize = lit.unicode_len();
    if start > n || m > n - start {
        return None;
    }
    let mut j: usize = 0;
    while j < m
        invariant
            j <= m,
            m == lit@.len(),
            n == s@.len(),
            start + m <= n,
            forall|k: int| 0 <= k < j ==> s@[start + k] == lit@[k],
        decreases m - j,
    {
        if s.get_char(start + j) != lit.get_char(j) {
            proof {
                if s@.subrange(start as int, start as int + lit@.len() as int) == lit@ {
                    assert(s@.subrange(start as int, start as int + lit@.len() as int)[j as int]
                        == lit@[j as int]);
                    assert(false);
                }
            }
            return None;
        }
        j = j + 1;
    }
    proof {
        assert(s@.subrange(start as int, start as int + m as int) =~= lit@);
    }
    Some(start + m)
}

/// Reads a quoted field's content from `start` up to its closing quote,
/// undoing the escapes. It succeeds exactly on what the escape writes, and
/// hands back the content and the index after the closing quote.
fn scan_field(s: &str, start: usize) -> (r: Option<(String, usize)>)
    ensures
        r matches Some(t) ==> start <= t.1 <= s@.len() && s@.subrange(start as int, t.1 as int) == escape(t.0@) + seq!['"'],
        forall|f: Seq<char>, rest: Seq<char>| #![trigger quoted_from(s@, start as int, f, rest)] (start <= s@.len() && quoted_from(s@, start as int, f, rest)) ==> (r matches Some(t) && t.0@ == f),
{
    let n: usize = s.unicode_len();
    if start > n {
        return None;
    }
    let mut field = String::new();
    let mut i: usize = start;
    proof {
        assert(s@.subrange(start as int, start as int) =~= escape(field@));
        assert forall|f: Seq<char>, rest: Seq<char>| quoted_from(s@, start as int, f, rest) implies (exists|f2: Seq<char>| f == field@ + f2 && s@.skip(i as int) == escape(f2) + seq!['"'] + rest) by {
            assert(f =~= field@ + f);
            assert(f == field@ + f && s@.skip(i as int) == escape(f) + seq!['"'] + rest);
        }
    }
    while i < n
        invariant
            n == s@.len(),
            start <= i <= n,
            s@.subrange(start as int, i as int) == escape(field@),
            forall|f: Seq<char>, rest: Seq<char>| #![trigger quoted_from(s@, start as int, f, rest)] quoted_from(s@, start as int, f, rest) ==> (exists|f2: Seq<char>| f == field@ + f2 && s@.skip(i as int) == escape(f2) + seq!['"'] + rest),
        decreases n - i,
    {
        let ghost field0 = field@;
        let ghost i0 = i as int;
        let c: char = s.get_char(i);
        if c == '"' {
            proof {
                assert forall|f: Seq<char>, rest: Seq<char>| quoted_from(s@, start as int, f, rest) implies f == field0 by {
                    let f2 = choose|f2: Seq<char>| f == field0 + f2 && s@.skip(i0) == escape(f2) + seq!['"'] + rest;
                    if f2.len() > 0 {
                        lemma_escape_front(f2);
                        assert(escape(f2)[0] == escape_char(f2.first())[0]);
                        assert(s@.skip(i0)[0] == s@[i0]);
                        assert(false);
                    }
                    assert(f =~= field0);
                }
                assert(s@.subrange(start as int, i0 + 1) =~= escape(field0) + seq!['"']);
            }
            return Some((field, i + 1));
        } else if c == '\\' {
            if i + 1 >= n {
                proof {
                    assert forall|f: Seq<char>, rest: Seq<char>| quoted_from(s@, start as int, f, rest) implies false by {
                        let f2 = choose|f2: Seq<char>| f == field0 + f2 && s@.skip(i0) == escape(f2) + seq!['"'] + rest;
                        if f2.len() == 0 {
                            assert(s@.skip(i0)[0] == '"');
                            assert(false);
                        }
                        lemma_escape_front(f2);
                        if f2.first() != '"' && f2.first() != '\\' {
                            assert(escape_char(f2.first()) =~= seq![f2.first()]);
                            assert(s@.skip(i0)[0] == f2.first());
                            assert(false);
                        }
                        assert(escape_char(f2.first()) =~= seq!['\\', f2.first()]);
                        assert(s@.skip(i0).len() >= 2);
                        assert(s@.skip(i0).len() == n - i0);
                        assert(false);
                    }
                }
                return None;
            }
            let d: char = s.get_char(i + 1);
            if d == '"' || d == '\\' {
                let piece = s.substring_char(i + 1, i + 2);
                field.append(piece);
                i = i + 2;
                proof {
                    assert(s@.subrange(i0 + 1, i0 + 2) =~= seq![d]);
                    assert(field@ =~= field0.push(d));
                    assert(field@.drop_last() =~= field0);
                    assert(escape(field@) == escape(field0) + escape_char(d));
                    assert(escape_char(d) =~= seq!['\\', d]);
                    assert(s@.subrange(start as int, i as int) =~= escape(field@));
                    assert forall|f: Seq<char>, rest: Seq<char>| quoted_from(s@, start as int, f, rest) implies (exists|f2: Seq<char>| f == field@ + f2 && s@.skip(i as int) == escape(f2) + seq!['"'] + rest) by {
                        let f2 = choose|f2: Seq<char>| f == field0 + f2 && s@.skip(i0) == escape(f2) + seq!['"'] + rest;
                        if f2.len() == 0 {
                            assert(s@.skip(i0)[0] == '"');
                            assert(false);
                        }
                        lemma_escape_front(f2);
                        if f2.first() != '"' && f2.first() != '\\' {
                            assert(escape_char(f2.first()) =~= seq![f2.first()]);
                            assert(s@.skip(i0)[0] == f2.first());
                            assert(false);
                        }
                        assert(escape_char(f2.first()) =~= seq!['\\', f2.first()]);
                        assert(s@.skip(i0)[1] == f2.first());
                        assert(f2.first() == d);
                        let f3 = f2.drop_first();
                        assert(f2 =~= seq![d] + f3);
                        assert(f =~= field@ + f3);
                        assert(i as int == i0 + 2);
                        assert(s@.skip(i0 + 2) =~= s@.skip(i0).skip(2));
                        assert(s@.skip(i0).skip(2) =~= escape(f3) + seq!['"'] + rest);
                        assert(f == field@ + f3 && s@.skip(i as int) == escape(f3) + seq!['"'] + rest);
                    }
                }
            } else {
                proof {
                    assert forall|f: Seq<char>, rest: Seq<char>| quoted_from(s@, start as int, f, rest) implies false by {
                        let f2 = choose|f2: Seq<char>| f == field0 + f2 && s@.skip(i0) == escape(f2) + seq!['"'] + rest;
                        if f2.len() == 0 {
                            assert(s@.skip(i0)[0] == '"');
                            assert(false);
                        }
                        lemma_escape_front(f2);
                        if f2.first() != '"' && f2.first() != '\\' {
                            assert(escape_char(f2.first()) =~= seq![f2.first()]);
                            assert(s@.skip(i0)[0] == f2.first());
                            assert(false);
                        }
                        assert(escape_char(f2.first()) =~= seq!['\\', f2.first()]);
                        assert(s@.skip(i0)[1] == f2.first());
                        assert(false);
                    }
                }
                return None;
            }
        } else {
            let piece = s.substring_char(i, i + 1);
            field.append(piece);
            i = i + 1;
            proof {
                assert(s@.subrange(i0, i0 + 1) =~= seq![c]);
                assert(field@ =~= field0.push(c));
                assert(field@.drop_last() =~= field0);
                assert(escape(field@) == escape(field0) + escape_char(c));
                assert(escape_char(c) =~= seq![c]);
                assert(s@.subrange(start as int, i as int) =~= escape(field@));
                assert forall|f: Seq<char>, rest: Seq<char>| quoted_from(s@, start as int, f, rest) implies (exists|f2: Seq<char>| f == field@ + f2 && s@.skip(i as int) == escape(f2) + seq!['"'] + rest) by {
                    let f2 = choose|f2: Seq<char>| f == field0 + f2 && s@.skip(i0) == escape(f2) + seq!['"'] + rest;
                    if f2.len() == 0 {
                        assert(s@.skip(i0)[0] == '"');
                        assert(false);
                    }
                    lemma_escape_front(f2);
                    if f2.first() == '"' || f2.first() == '\\' {
                        assert(escape_char(f2.first()) =~= seq!['\\', f2.first()]);
                        assert(s@.skip(i0)[0] == '\\');
                        assert(false);
                    }
                    assert(escape_char(f2.first()) =~= seq![f2.first()]);
                    assert(s@.skip(i0)[0] == f2.first());
                    assert(f2.first() == c);
                    let f3 = f2.drop_first();
                    assert(f2 =~= seq![c] + f3);
                    assert(f =~= field@ + f3);
                    assert(i as int == i0 + 1);
                    assert(s@.skip(i0 + 1) =~= s@.skip(i0).skip(1));
                    assert(s@.skip(i0).skip(1) =~= escape(f3) + seq!['"'] + rest);
                    assert(f == field@ + f3 && s@.skip(i as int) == escape(f3) + seq!['"'] + rest);
                }
            }
        }
    }
    proof {
        assert forall|f: Seq<char>, rest: Seq<char>| quoted_from(s@, start as int, f, rest) implies false by {
            let f2 = choose|f2: Seq<char>| f == field@ + f2 && s@.skip(i as int) == escape(f2) + seq!['"'] + rest;
            assert(s@.skip(i as int).len() == 0);
            assert((escape(f2) + seq!['"'] + rest).len() >= 1);
            assert(false);
        }
    }
    None
}

/// The stored transaction text, split at its literal pieces, the fields'
/// opening quotes standing with the literals before them.
proof fn lemma_transaction_text_shape(a: Seq<char>, b: Seq<char>, c: Seq<char>)
    ensures
        transaction_text(a, b, c) == "{\"src\":\""@ + escape(a) + seq!['"'] + ",\"dst\":\""@ + escape(b) + seq!['"'] + ",\"amount\":\""@ + escape(c) + seq!['"'] + "}"@,
{
    reveal_strlit("{\"src\":");
    reveal_strlit("{\"src\":\"");
    reveal_strlit(",\"dst\":");
    reveal_strlit(",\"dst\":\"");
    reveal_strlit(",\"amount\":");
    reveal_strlit(",\"amount\":\"");
    reveal_strlit("}");
    assert("{\"src\":\""@ =~= "{\"src\":"@ + seq!['"']);
    assert(",\"dst\":\""@ =~= ",\"dst\":"@ + seq!['"']);
    assert(",\"amount\":\""@ =~= ",\"amount\":"@ + seq!['"']);
    assert(transaction_text(a, b, c) =~= "{\"src\":\""@ + escape(a) + seq!['"'] + ",\"dst\":\""@
        + escape(b) + seq!['"'] + ",\"amount\":\""@ + escape(c) + seq!['"'] + "}"@);
}

/// The transaction text taken apart: where each literal piece stands, and
/// where each quoted field opens, over the lengths of the escaped fields.
#[verifier::rlimit(100)]
#[verifier::spinoff_prover]
proof fn lemma_transaction_decomposition(s: Seq<char>, a: Seq<char>, b: Seq<char>, c: Seq<char>)
    requires
        s == transaction_text(a, b, c),
    ensures
        s.len() == 31 + escape(a).len() + escape(b).len() + escape(c).len(),
        s.subrange(0, 8) == "{\"src\":\""@,
        quoted_from(s, 8, a, ",\"dst\":\""@ + escape(b) + seq!['"'] + ",\"amount\":\""@ + escape(c) + seq!['"'] + "}"@),
        s.subrange(9 + escape(a).len() as int, 17 + escape(a).len() as int) == ",\"dst\":\""@,
        quoted_from(s, 17 + escape(a).len() as int, b, ",\"amount\":\""@ + escape(c) + seq!['"'] + "}"@),
        s.subrange(18 + escape(a).len() as int + escape(b).len() as int, 29 + escape(a).len() as int + escape(b).len() as int) == ",\"amount\":\""@,
        quoted_from(s, 29 + escape(a).len() as int + escape(b).len() as int, c, "}"@),
        s.subrange(s.len() as int - 1, s.len() as int) == "}"@,
{
    lemma_transaction_text_shape(a, b, c);
    reveal_strlit("{\"src\":\"");
    reveal_strlit(",\"dst\":\"");
    reveal_strlit(",\"amount\":\"");
    reveal_strlit("}");
    let ea = escape(a);
    let eb = escape(b);
    let ec = escape(c);
    assert(s =~= "{\"src\":\""@ + ea + seq!['"'] + ",\"dst\":\""@ + eb + seq!['"']
        + ",\"amount\":\""@ + ec + seq!['"'] + "}"@);
    assert(s.subrange(0, 8) =~= "{\"src\":\""@);
    assert(s.skip(8) =~= ea + seq!['"'] + (",\"dst\":\""@ + eb + seq!['"'] + ",\"amount\":\""@ + ec
        + seq!['"'] + "}"@));
    assert(s.subrange(9 + ea.len() as int, 17 + ea.len() as int) =~= ",\"dst\":\""@);
    assert(s.skip(17 + ea.len() as int) =~= eb + seq!['"'] + (",\"amount\":\""@ + ec + seq!['"']
        + "}"@));
    assert(s.subrange(18 + ea.len() as int + eb.len() as int, 29 + ea.len() as int
        + eb.len() as int) =~= ",\"amount\":\""@);
    assert(s.skip(29 + ea.len() as int + eb.len() as int) =~= ec + seq!['"'] + "}"@);
    assert(s.subrange(s.len() as int - 1, s.len() as int) =~= "}"@);
}

/// Reads the three fields out of a transaction text. It succeeds exactly
/// on the texts the transaction encoding writes, and hands back the fields
/// the text was written from.
#[verifier::rlimit(100)]
#[verifier::spinoff_prover]
pub(crate) fn parse_transaction_fields(s: &str) -> (r: Option<(String, String, String)>)
    ensures
        r matches Some(t) ==> s@ == transaction_text(t.0@, t.1@, t.2@),
        forall|a: Seq<char>, b: Seq<char>, c: Seq<char>| #![trigger transaction_text(a, b, c)] s@ == transaction_text(a, b, c) ==> (r matches Some(t) && t.0@ == a && t.1@ == b && t.2@ == c),
{
    proof {
        reveal_strlit("{\"src\":\"");
        reveal_strlit(",\"dst\":\"");
        reveal_strlit(",\"amount\":\"");
        reveal_strlit("}");
        assert("{\"src\":\""@.len() == 8);
        assert(",\"dst\":\""@.len() == 8);
        assert(",\"amount\":\""@.len() == 11);
        assert("}"@.len() == 1);
    }
    let n: usize = s.unicode_len();
    let i1 = match expect_lit(s, 0, "{\"src\":\"") {
        Some(i) => i,
        None => {
            proof {
                assert forall|a: Seq<char>, b: Seq<char>, c: Seq<char>| s@ == transaction_text(
                    a,
                    b,
                    c,
                ) implies false by {
                    lemma_transaction_decomposition(s@, a, b, c);
                }
            }
            return None;
        },
    };
    let (src, i2) = match scan_field(s, i1) {
        Some(t) => t,
        None => {
            proof {
                assert forall|a: Seq<char>, b: Seq<char>, c: Seq<char>| s@ == transaction_text(
                    a,
                    b,
                    c,
                ) implies false by {
                    lemma_transaction_decomposition(s@, a, b, c);
                }
            }
            return None;
        },
    };
    let i3 = match expect_lit(s, i2, ",\"dst\":\"") {
        Some(i) => i,
        None => {
            proof {
                assert forall|a: Seq<char>, b: Seq<char>, c: Seq<char>| s@ == transaction_text(
                    a,
                    b,
                    c,
                ) implies false by {
                    lemma_transaction_decomposition(s@, a, b, c);
                    assert(src@ == a);
                    assert(i2 == 9 + escape(a).len());
                }
            }
            return None;
        },
    };
    let (dst, i4) = match scan_field(s, i3) {
        Some(t) => t,
        None => {
            proof {
                assert forall|a: Seq<char>, b: Seq<char>, c: Seq<char>| s@ == transaction_text(
                    a,
                    b,
                    c,
                ) implies false by {
                    lemma_transaction_decomposition(s@, a, b, c);
                    assert(src@ == a);
                    assert(i2 == 9 + escape(a).len());
                    assert(i3 == 17 + escape(a).len());
                }
            }
            return None;
        },
    };
    let i5 = match expect_lit(s, i4, ",\"amount\":\"") {
        Some(i) => i,
        None => {
            proof {
                assert forall|a: Seq<char>, b: Seq<char>, c: Seq<char>| s@ == transaction_text(
                    a,
                    b,
                    c,
                ) implies false by {
                    lemma_transaction_decomposition(s@, a, b, c);
                    assert(src@ == a);
                    assert(i2 == 9 + escape(a).len());
                    assert(i3 == 17 + escape(a).len());
                    assert(dst@ == b);
                    assert(i4 == 18 + escape(a).len() + escape(b).len());
                }
            }
            return None;
        },
    };
    let (amount, i6) = match scan_field(s, i5) {
        Some(t) => t,
        None => {
            proof {
                assert forall|a: Seq<char>, b: Seq<char>, c: Seq<char>| s@ == transaction_text(
                    a,
                    b,
                    c,
                ) implies false by {
                    lemma_transaction_decomposition(s@, a, b, c);
                    assert(src@ == a);
                    assert(i2 == 9 + escape(a).len());
                    assert(i3 == 17 + escape(a).len());
                    assert(dst@ == b);
                    assert(i4 == 18 + escape(a).len() + escape(b).len());
                    assert(i5 == 29 + escape(a).len() + escape(b).len());
                }
            }
            return None;
        },
    };
    let i7 = match expect_lit(s, i6, "}") {
        Some(i) => i,
        None => {
            proof {
                assert forall|a: Seq<char>, b: Seq<char>, c: Seq<char>| s@ == transaction_text(
                    a,
                    b,
                    c,
                ) implies false by {
                    lemma_transaction_decomposition(s@, a, b, c);
                    assert(src@ == a);
                    assert(i2 == 9 + escape(a).len());
                    assert(i3 == 17 + escape(a).len());
                    assert(dst@ == b);
                    assert(i4 == 18 + escape(a).len() + escape(b).len());
                    assert(i5 == 29 + escape(a).len() + escape(b).len());
                    assert(amount@ == c);
                    assert(i6 == 30 + escape(a).len() + escape(b).len() + escape(c).len());
                    assert(i6 == s@.len() - 1);
                }
            }
            return None;
        },
    };
    if i7 != n {
        proof {
            assert forall|a: Seq<char>, b: Seq<char>, c: Seq<char>| s@ == transaction_text(
                a,
                b,
                c,
            ) implies false by {
                lemma_transaction_decomposition(s@, a, b, c);
                assert(src@ == a);
                assert(i2 == 9 + escape(a).len());
                assert(i3 == 17 + escape(a).len());
                assert(dst@ == b);
                assert(i4 == 18 + escape(a).len() + escape(b).len());
                assert(i5 == 29 + escape(a).len() + escape(b).len());
                assert(amount@ == c);
                assert(i6 == 30 + escape(a).len() + escape(b).len() + escape(c).len());
                assert(i7 == s@.len());
            }
        }
        return None;
    }
    proof {
        assert(s@ =~= s@.subrange(0, 8) + s@.subrange(8, i2 as int) + s@.subrange(
            i2 as int,
            i3 as int,
        ) + s@.subrange(i3 as int, i4 as int) + s@.subrange(i4 as int, i5 as int) + s@.subrange(
            i5 as int,
            i6 as int,
        ) + s@.subrange(i6 as int, i7 as int));
        lemma_transaction_text_shape(src@, dst@, amount@);
        assert(s@ =~= transaction_text(src@, dst@, amount@));
        assert forall|a: Seq<char>, b: Seq<char>, c: Seq<char>| s@ == transaction_text(
            a,
            b,
            c,
        ) implies src@ == a && dst@ == b && amount@ == c by {
            lemma_transaction_decomposition(s@, a, b, c);
            assert(src@ == a);
            assert(i2 == 9 + escape(a).len());
            assert(i3 == 17 + escape(a).len());
            assert(dst@ == b);
            assert(i4 == 18 + escape(a).len() + escape(b).len());
            assert(i5 == 29 + escape(a).len() + escape(b).len());
            assert(amount@ == c);
        }
    }
    Some((src, dst, amount))
}

/// The stored byte text, read from the front: the first byte's decimal
/// rendering, then a comma and the rest when more bytes follow.
proof fn lemma_bytes_inner_front(bs: Seq<u8>)
    requires
        bs.len() > 0,
    ensures
        bytes_text_inner(bs) == dec_of(bs.first() as nat) + (if bs.len() > 1 {
            seq![','] + bytes_text_inner(bs.drop_first())
        } else {
            Seq::<char>::empty()
        }),
    decreases bs.len(),
{
    if bs.len() == 1 {
        assert(bytes_text_inner(bs) =~= dec_of(bs.first() as nat) + Seq::<char>::empty());
    } else if bs.len() == 2 {
        assert(bs.drop_last().len() == 1);
        assert(bs.drop_last()[0] == bs.first());
        assert(bs.drop_first().len() == 1);
        assert(bs.drop_first()[0] == bs.last());
        assert(bytes_text_inner(bs.drop_last()) == dec_of(bs.first() as nat));
        assert(bytes_text_inner(bs.drop_first()) == dec_of(bs.last() as nat));
        assert(bytes_text_inner(bs) =~= dec_of(bs.first() as nat) + (seq![','] + bytes_text_inner(
            bs.drop_first(),
        )));
    } else {
        lemma_bytes_inner_front(bs.drop_last());
        assert(bs.drop_last().first() == bs.first());
        assert(bs.drop_first().drop_last() =~= bs.drop_last().drop_first());
        assert(bs.drop_first().last() == bs.last());
        assert(bs.drop_first().len() > 1);
        assert(bytes_text_inner(bs.drop_first()) == bytes_text_inner(bs.drop_first().drop_last())
            + seq![','] + dec_of(bs.drop_first().last() as nat));
        assert(bytes_text_inner(bs) =~= dec_of(bs.first() as nat) + (seq![','] + bytes_text_inner(
            bs.drop_first(),
        )));
    }
}

/// The decimal rendering of a byte: one, two or three digits, the most
/// significant first.
proof fn lemma_dec_of_u8(v: u8)
    ensures
        v < 10 ==> dec_of(v as nat) == seq![digit_char(v as nat)],
        10 <= v < 100 ==> dec_of(v as nat) == seq![digit_char(v as nat / 10), digit_char(v as nat % 10)],
        v >= 100 ==> dec_of(v as nat) == seq![digit_char(v as nat / 100), digit_char(v as nat / 10 % 10), digit_char(v as nat % 10)],
{
    let x = v as nat;
    if v < 10 {
    } else if v < 100 {
        assert(dec_of(x) == dec_of(x / 10) + seq![digit_char(x % 10)]);
        assert(x / 10 < 10);
        assert(dec_of(x / 10) == seq![digit_char(x / 10)]);
        assert(dec_of(x) =~= seq![digit_char(x / 10), digit_char(x % 10)]);
    } else {
        assert(dec_of(x) == dec_of(x / 10) + seq![digit_char(x % 10)]);
        assert(10 <= x / 10 < 26);
        assert(dec_of(x / 10) == dec_of(x / 10 / 10) + seq![digit_char(x / 10 % 10)]);
        vstd::arithmetic::div_mod::lemma_div_denominator(x as int, 10, 10);
        assert(x / 10 / 10 == x / 100);
        assert(x / 100 < 10);
        assert(dec_of(x / 100) == seq![digit_char(x / 100)]);
        assert(dec_of(x) =~= seq![digit_char(x / 100), digit_char(x / 10 % 10), digit_char(x % 10)]);
    }
}

/// Two decimal digit characters agree only for the same value.
proof fn lemma_digit_char_injective(x: nat, y: nat)
    requires
        x < 10,
        y < 10,
        digit_char(x) == digit_char(y),
    ensures
        x == y,
{
}

/// Where the byte at position `k` stands in a byte text that still has to
/// be read from offset `i0`: its digits, the separator after them, and
/// what remains.
proof fn lemma_atom_shape(s: Seq<char>, i0: int, bs: Seq<u8>, k: int)
    requires
        0 <= k < bs.len(),
        0 <= i0 <= s.len(),
        s.skip(i0) == bytes_text_inner(bs.skip(k)) + seq![']'],
    ensures
        dec_of(bs[k] as nat).len() == (if bs[k] < 10 { 1int } else if bs[k] < 100 { 2int } else { 3int }),
        i0 + dec_of(bs[k] as nat).len() < s.len(),
        forall|j: int| 0 <= j < dec_of(bs[k] as nat).len() ==> s[i0 + j] == dec_of(bs[k] as nat)[j],
        s[i0] == dec_of(bs[k] as nat)[0],
        dec_of(bs[k] as nat).len() >= 2 ==> s[i0 + 1] == dec_of(bs[k] as nat)[1],
        dec_of(bs[k] as nat).len() >= 3 ==> s[i0 + 2] == dec_of(bs[k] as nat)[2],
        bs[k] < 10 ==> dec_of(bs[k] as nat) == seq![digit_char(bs[k] as nat)],
        10 <= bs[k] < 100 ==> dec_of(bs[k] as nat) == seq![digit_char(bs[k] as nat / 10), digit_char(bs[k] as nat % 10)],
        bs[k] >= 100 ==> dec_of(bs[k] as nat) == seq![digit_char(bs[k] as nat / 100), digit_char(bs[k] as nat / 10 % 10), digit_char(bs[k] as nat % 10)],
        s[i0 + dec_of(bs[k] as nat).len()] == ',' || s[i0 + dec_of(bs[k] as nat).len()] == ']',
        (s[i0 + dec_of(bs[k] as nat).len()] == ']') == (k == bs.len() - 1),
        k == bs.len() - 1 ==> s.len() == i0 + dec_of(bs[k] as nat).len() + 1,
        k < bs.len() - 1 ==> s[i0 + dec_of(bs[k] as nat).len()] == ',' && s.skip(i0 + dec_of(bs[k] as nat).len() + 1) == bytes_text_inner(bs.skip(k + 1)) + seq![']'],
{
    let rem = bs.skip(k);
    assert(rem.len() > 0);
    assert(rem.first() == bs[k]);
    lemma_bytes_inner_front(rem);
    lemma_dec_of_u8(bs[k]);
    let d = dec_of(bs[k] as nat);
    let tail = (if rem.len() > 1 {
        seq![','] + bytes_text_inner(rem.drop_first())
    } else {
        Seq::<char>::empty()
    }) + seq![']'];
    assert(s.skip(i0) =~= d + tail);
    assert(s.len() - i0 == d.len() + tail.len());
    assert(tail.len() >= 1);
    assert forall|j: int| 0 <= j < d.len() implies s[i0 + j] == d[j] by {
        assert(s.skip(i0)[j] == s[i0 + j]);
        assert((d + tail)[j] == d[j]);
    }
    assert(s.skip(i0)[d.len() as int] == s[i0 + d.len()]);
    assert((d + tail)[d.len() as int] == tail[0]);
    assert(s[i0 + 0] == d[0]);
    if d.len() >= 2 {
        assert(s[i0 + 1] == d[1]);
    }
    if d.len() >= 3 {
        assert(s[i0 + 2] == d[2]);
    }
    if rem.len() > 1 {
        assert(tail[0] == ',');
        assert(rem.drop_first() =~= bs.skip(k + 1));
        assert(s.skip(i0 + d.len() + 1) =~= s.skip(i0).skip(d.len() as int + 1));
        assert(s.skip(i0).skip(d.len() as int + 1) =~= bytes_text_inner(bs.skip(k + 1)) + seq![']']);
    } else {
        assert(tail =~= seq![']']);
        assert(tail[0] == ']');
        assert(k == bs.len() - 1);
    }
}

/// Reads a byte string out of its stored text. Every text the byte
/// encoding writes is read back to the bytes it was written from; on any
/// other input nothing is promised of what comes back, and the caller
/// re-encodes it.
#[verifier::rlimit(100)]
#[verifier::spinoff_prover]
fn parse_bytes_loose(s: &str) -> (r: Option<Vec<u8>>)
    ensures
        forall|bs: Seq<u8>| #![trigger bytes_text(bs)] s@ == bytes_text(bs) ==> (r matches Some(v) && v@ == bs),
{
    let n: usize = s.unicode_len();
    if n < 2 {
        return None;
    }
    if s.get_char(0) != '[' {
        return None;
    }
    let mut out: Vec<u8> = Vec::new();
    if s.get_char(1) == ']' {
        if n == 2 {
            proof {
                assert forall|bs: Seq<u8>| #![trigger bytes_text(bs)] s@ == bytes_text(bs) implies out@ == bs by {
                    assert(s@.skip(1) =~= bytes_text_inner(bs) + seq![']']);
                    if bs.len() > 0 {
                        assert(bs.skip(0) =~= bs);
                        lemma_atom_shape(s@, 1, bs, 0);
                        assert(s@[1] == dec_of(bs[0] as nat)[0]);
                        if bs[0] < 10 {
                            assert(s@[1] == digit_char(bs[0] as nat));
                        } else if bs[0] < 100 {
                            assert(s@[1] == digit_char(bs[0] as nat / 10));
                        } else {
                            assert(s@[1] == digit_char(bs[0] as nat / 100));
                        }
                        assert(false);
                    }
                    assert(out@ =~= bs);
                }
            }
            return Some(out);
        } else {
            proof {
                assert forall|bs: Seq<u8>| #![trigger bytes_text(bs)] s@ == bytes_text(bs) implies false by {
                    assert(s@.skip(1) =~= bytes_text_inner(bs) + seq![']']);
                    if bs.len() == 0 {
                        assert(s@.len() == 2);
                    } else {
                        assert(bs.skip(0) =~= bs);
                        lemma_atom_shape(s@, 1, bs, 0);
                        assert(s@[1] == dec_of(bs[0] as nat)[0]);
                        if bs[0] < 10 {
                            assert(s@[1] == digit_char(bs[0] as nat));
                        } else if bs[0] < 100 {
                            assert(s@[1] == digit_char(bs[0] as nat / 10));
                        } else {
                            assert(s@[1] == digit_char(bs[0] as nat / 100));
                        }
                    }
                }
            }
            return None;
        }
    }
    let mut i: usize = 1;
    proof {
        assert forall|bs: Seq<u8>| #![trigger bytes_text(bs)] s@ == bytes_text(bs) implies (out@.len() < bs.len() && out@ == bs.take(out@.len() as int) && s@.skip(i as int) == bytes_text_inner(bs.skip(out@.len() as int)) + seq![']']) by {
            assert(s@.skip(1) =~= bytes_text_inner(bs) + seq![']']);
            if bs.len() == 0 {
                assert(s@[1] == ']');
                assert(false);
            }
            assert(out@ =~= bs.take(0));
            assert(bs.skip(0) =~= bs);
        }
    }
    loop
        invariant
            n == s@.len(),
            1 <= i < n,
            forall|bs: Seq<u8>| #![trigger bytes_text(bs)] s@ == bytes_text(bs) ==> (out@.len() < bs.len() && out@ == bs.take(out@.len() as int) && s@.skip(i as int) == bytes_text_inner(bs.skip(out@.len() as int)) + seq![']']),
        decreases n - i,
    {
        let ghost out0 = out@;
        let ghost i0 = i as int;
        let d1 = match digit_val(s.get_char(i)) {
            Some(d) => d,
            None => {
                proof {
                    assert forall|bs: Seq<u8>| #![trigger bytes_text(bs)] s@ == bytes_text(bs) implies false by {
                        lemma_atom_shape(s@, i0, bs, out0.len() as int);
                        let b0 = bs[out0.len() as int];
                        assert(s@[i0] == dec_of(b0 as nat)[0]);
                        if b0 < 10 {
                            assert(s@[i0] == digit_char(b0 as nat));
                        } else if b0 < 100 {
                            assert(s@[i0] == digit_char(b0 as nat / 10));
                        } else {
                            assert(s@[i0] == digit_char(b0 as nat / 100));
                        }
                    }
                }
                return None;
            },
        };
        let mut v: u32 = d1 as u32;
        let mut width: usize = 1;
        if i + 1 < n {
            match digit_val(s.get_char(i + 1)) {
                Some(d2) => {
                    v = v * 10 + d2 as u32;
                    width = 2;
                    if i + 2 < n {
                        match digit_val(s.get_char(i + 2)) {
                            Some(d3) => {
                                v = v * 10 + d3 as u32;
                                width = 3;
                                if i + 3 < n && digit_val(s.get_char(i + 3)).is_some() {
                                    proof {
                                        assert forall|bs: Seq<u8>| #![trigger bytes_text(bs)] s@ == bytes_text(bs) implies false by {
                                            lemma_atom_shape(s@, i0, bs, out0.len() as int);
                                            let b0 = bs[out0.len() as int];
                                            if b0 < 10 {
                                                assert(s@[i0 + 1] == ',' || s@[i0 + 1] == ']');
                                                assert(digit_char(d2 as nat) == s@[i0 + 1]);
                                            } else if b0 < 100 {
                                                assert(s@[i0 + 2] == ',' || s@[i0 + 2] == ']');
                                                assert(digit_char(d3 as nat) == s@[i0 + 2]);
                                            } else {
                                                assert(s@[i0 + 3] == ',' || s@[i0 + 3] == ']');
                                            }
                                        }
                                    }
                                    return None;
                                }
                                proof {
                                    assert forall|bs: Seq<u8>| #![trigger bytes_text(bs)] s@ == bytes_text(bs) implies (v == bs[out0.len() as int] as u32 && width as int == dec_of(bs[out0.len() as int] as nat).len()) by {
                                        lemma_atom_shape(s@, i0, bs, out0.len() as int);
                                        let b0 = bs[out0.len() as int];
                                        if b0 < 10 {
                                            assert(s@[i0 + 1] == ',' || s@[i0 + 1] == ']');
                                            assert(digit_char(d2 as nat) == s@[i0 + 1]);
                                            assert(false);
                                        } else if b0 < 100 {
                                            assert(s@[i0 + 2] == ',' || s@[i0 + 2] == ']');
                                            assert(digit_char(d3 as nat) == s@[i0 + 2]);
                                            assert(false);
                                        } else {
                                            assert(s@[i0] == digit_char(b0 as nat / 100));
                                            assert(s@[i0 + 1] == digit_char(b0 as nat / 10 % 10));
                                            assert(s@[i0 + 2] == digit_char(b0 as nat % 10));
                                            lemma_digit_char_injective(d1 as nat, b0 as nat / 100);
                                            lemma_digit_char_injective(d2 as nat, b0 as nat / 10 % 10);
                                            lemma_digit_char_injective(d3 as nat, b0 as nat % 10);
                                            assert(b0 as int == (b0 as int / 100) * 100 + (b0 as int / 10 % 10) * 10 + b0 as int % 10) by (nonlinear_arith);
                                            assert(v == b0 as u32);
                                        }
                                    }
                                }
                            },
                            None => {
                                proof {
                                    assert forall|bs: Seq<u8>| #![trigger bytes_text(bs)] s@ == bytes_text(bs) implies (v == bs[out0.len() as int] as u32 && width as int == dec_of(bs[out0.len() as int] as nat).len()) by {
                                        lemma_atom_shape(s@, i0, bs, out0.len() as int);
                                        let b0 = bs[out0.len() as int];
                                        if b0 < 10 {
                                            assert(s@[i0 + 1] == ',' || s@[i0 + 1] == ']');
                                            assert(digit_char(d2 as nat) == s@[i0 + 1]);
                                            assert(false);
                                        } else if b0 < 100 {
                                            assert(s@[i0] == digit_char(b0 as nat / 10));
                                            assert(s@[i0 + 1] == digit_char(b0 as nat % 10));
                                            lemma_digit_char_injective(d1 as nat, b0 as nat / 10);
                                            lemma_digit_char_injective(d2 as nat, b0 as nat % 10);
                                            assert(b0 as int == (b0 as int / 10) * 10 + b0 as int % 10) by (nonlinear_arith);
                                            assert(v == b0 as u32);
                                        } else {
                                            assert(s@[i0 + 2] == digit_char(b0 as nat % 10));
                                        }
                                    }
                                }
                            },
                        }
                    } else {
                        proof {
                            assert forall|bs: Seq<u8>| #![trigger bytes_text(bs)] s@ == bytes_text(bs) implies (v == bs[out0.len() as int] as u32 && width as int == dec_of(bs[out0.len() as int] as nat).len()) by {
                                lemma_atom_shape(s@, i0, bs, out0.len() as int);
                                let b0 = bs[out0.len() as int];
                                if b0 < 10 {
                                    assert(s@[i0 + 1] == ',' || s@[i0 + 1] == ']');
                                    assert(digit_char(d2 as nat) == s@[i0 + 1]);
                                    assert(false);
                                } else if b0 < 100 {
                                    assert(s@[i0] == digit_char(b0 as nat / 10));
                                    assert(s@[i0 + 1] == digit_char(b0 as nat % 10));
                                    lemma_digit_char_injective(d1 as nat, b0 as nat / 10);
                                    lemma_digit_char_injective(d2 as nat, b0 as nat % 10);
                                    assert(b0 as int == (b0 as int / 10) * 10 + b0 as int % 10) by (nonlinear_arith);
                                    assert(v == b0 as u32);
                                    assert(i0 + 2 < n);
                                    assert(false);
                                } else {
                                    assert(i0 + 3 < n);
                                    assert(false);
                                }
                            }
                        }
                    }
                },
                None => {
                    proof {
                        assert forall|bs: Seq<u8>| #![trigger bytes_text(bs)] s@ == bytes_text(bs) implies (v == bs[out0.len() as int] as u32 && width as int == dec_of(bs[out0.len() as int] as nat).len()) by {
                            lemma_atom_shape(s@, i0, bs, out0.len() as int);
                            let b0 = bs[out0.len() as int];
                            if b0 < 10 {
                                assert(s@[i0] == digit_char(b0 as nat));
                                lemma_digit_char_injective(d1 as nat, b0 as nat);
                                assert(v == b0 as u32);
                            } else if b0 < 100 {
                                assert(s@[i0 + 1] == digit_char(b0 as nat % 10));
                            } else {
                                assert(s@[i0 + 1] == digit_char(b0 as nat / 10 % 10));
                            }
                        }
                    }
                },
            }
        } else {
            proof {
                assert forall|bs: Seq<u8>| #![trigger bytes_text(bs)] s@ == bytes_text(bs) implies (v == bs[out0.len() as int] as u32 && width as int == dec_of(bs[out0.len() as int] as nat).len()) by {
                    lemma_atom_shape(s@, i0, bs, out0.len() as int);
                    let b0 = bs[out0.len() as int];
                    assert(i0 + dec_of(b0 as nat).len() < n);
                    assert(dec_of(b0 as nat).len() >= 1);
                    assert(i0 + 1 < n);
                    assert(false);
                }
            }
        }
        if v > 255 {
            proof {
                assert forall|bs: Seq<u8>| #![trigger bytes_text(bs)] s@ == bytes_text(bs) implies false by {
                    assert(v == bs[out0.len() as int] as u32);
                }
            }
            return None;
        }
        out.push(v as u8);
        i = i + width;
        let ghost ik = i as int;
        if i >= n {
            proof {
                assert forall|bs: Seq<u8>| #![trigger bytes_text(bs)] s@ == bytes_text(bs) implies false by {
                    lemma_atom_shape(s@, i0, bs, out0.len() as int);
                    assert(i0 + dec_of(bs[out0.len() as int] as nat).len() < n);
                }
            }
            return None;
        }
        let c: char = s.get_char(i);
        if c == ']' {
            if i + 1 == n {
                proof {
                    assert forall|bs: Seq<u8>| #![trigger bytes_text(bs)] s@ == bytes_text(bs) implies out@ == bs by {
                        lemma_atom_shape(s@, i0, bs, out0.len() as int);
                        let b0 = bs[out0.len() as int];
                        assert(s@[ik] == ']');
                        assert(out0.len() == bs.len() - 1);
                        assert(v as u8 == b0);
                        assert(out@ =~= bs);
                    }
                }
                return Some(out);
            } else {
                proof {
                    assert forall|bs: Seq<u8>| #![trigger bytes_text(bs)] s@ == bytes_text(bs) implies false by {
                        lemma_atom_shape(s@, i0, bs, out0.len() as int);
                        assert(s@[ik] == ']');
                        assert(out0.len() == bs.len() - 1);
                        assert(n == ik + 1);
                    }
                }
                return None;
            }
        } else if c == ',' {
            i = i + 1;
            if i >= n {
                proof {
                    assert forall|bs: Seq<u8>| #![trigger bytes_text(bs)] s@ == bytes_text(bs) implies false by {
                        lemma_atom_shape(s@, i0, bs, out0.len() as int);
                        assert(s@[ik] == ',');
                        assert(out0.len() < bs.len() - 1);
                        assert(s@.skip(ik + 1) == bytes_text_inner(bs.skip(out0.len() as int + 1)) + seq![']']);
                        assert(bs.skip(out0.len() as int + 1).len() > 0);
                        lemma_bytes_inner_front(bs.skip(out0.len() as int + 1));
                        lemma_dec_of_u8(bs.skip(out0.len() as int + 1).first());
                        assert(s@.skip(ik + 1).len() >= 2);
                        assert(s@.skip(ik + 1).len() == n - (ik + 1));
                    }
                }
                return None;
            }
            proof {
                assert forall|bs: Seq<u8>| #![trigger bytes_text(bs)] s@ == bytes_text(bs) implies (out@.len() < bs.len() && out@ == bs.take(out@.len() as int) && s@.skip(i as int) == bytes_text_inner(bs.skip(out@.len() as int)) + seq![']']) by {
                    lemma_atom_shape(s@, i0, bs, out0.len() as int);
                    let b0 = bs[out0.len() as int];
                    assert(s@[ik] == ',');
                    assert(out0.len() < bs.len() - 1);
                    assert(out@.len() == out0.len() + 1);
                    assert(v as u8 == b0);
                    assert(out@ =~= bs.take(out@.len() as int));
                    assert(s@.skip(ik + 1) == bytes_text_inner(bs.skip(out@.len() as int)) + seq![']']);
                }
            }
        } else {
            proof {
                assert forall|bs: Seq<u8>| #![trigger bytes_text(bs)] s@ == bytes_text(bs) implies false by {
                    lemma_atom_shape(s@, i0, bs, out0.len() as int);
                    assert(s@[ik] == ',' || s@[ik] == ']');
                }
            }
            return None;
        }
    }
}

/// The value of a decimal digit character.
fn digit_val(c: char) -> (r: Option<u8>)
    ensures
        r matches Some(d) ==> d < 10 && digit_char(d as nat) == c && d as nat == digit_value(c),
        r is Some <==> is_digit(c),
        r is None ==> (forall|d: nat| d < 10 ==> digit_char(d) != c),
{
    if c == '0' {
        Some(0)
    } else if c == '1' {
        Some(1)
    } else if c == '2' {
        Some(2)
    } else if c == '3' {
        Some(3)
    } else if c == '4' {
        Some(4)
    } else if c == '5' {
        Some(5)
    } else if c == '6' {
        Some(6)
    } else if c == '7' {
        Some(7)
    } else if c == '8' {
        Some(8)
    } else if c == '9' {
        Some(9)
    } else {
        None
    }
}

/// Reads a byte string back from its stored text. Bytes that come back
/// re-encode to exactly the input text, and every text the byte encoding
/// writes is read back.
pub(crate) fn parse_bytes_text(s: &str) -> (r: Option<Vec<u8>>)
    ensures
        r matches Some(b) ==> bytes_text(b@) == s@,
        forall|bs: Seq<u8>| #![trigger bytes_text(bs)] s@ == bytes_text(bs) ==> r is Some,
{
    let parsed = match parse_bytes_loose(s) {
        Some(b) => b,
        None => {
            return None;
        },
    };
    let re = bytes_to_text(parsed.as_slice());
    let given = String::from_str(s);
    if re == given {
        Some(parsed)
    } else {
        proof {
            assert forall|bs: Seq<u8>| #![trigger bytes_text(bs)] s@ == bytes_text(bs) implies false by {
                assert(parsed@ == bs);
            }
        }
        None
    }
}

/// Whether a character is a decimal digit.
pub open spec fn is_digit(c: char) -> bool {
    c == '0' || c == '1' || c == '2' || c == '3' || c == '4' || c == '5' || c == '6' || c == '7'
        || c == '8' || c == '9'
}

/// The value of a decimal digit character.
spec fn digit_value(c: char) -> nat {
    if c == '0' {
        0
    } else if c == '1' {
        1
    } else if c == '2' {
        2
    } else if c == '3' {
        3
    } else if c == '4' {
        4
    } else if c == '5' {
        5
    } else if c == '6' {
        6
    } else if c == '7' {
        7
    } else if c == '8' {
        8
    } else {
        9
    }
}

/// The value of a run of digit characters, most significant first.
spec fn dec_val(ds: Seq<char>) -> nat
    decreases ds.len(),
{
    if ds.len() == 0 {
        0
    } else {
        dec_val(ds.drop_last()) * 10 + digit_value(ds.last())
    }
}

/// Whether the decimal rendering of `v` stands at `start`, with `rest`
/// (which does not continue the digit run) after it.
spec fn dec_from(s: Seq<char>, start: int, v: u64, rest: Seq<char>) -> bool {
    s.skip(start) == dec_of(v as nat) + rest && (rest.len() == 0 || !is_digit(rest[0]))
}

/// A digit's character reads back to the digit.
proof fn lemma_digit_char_value(d: nat)
    requires
        d < 10,
    ensures
        is_digit(digit_char(d)),
        digit_value(digit_char(d)) == d,
{
}

/// The decimal rendering's characters are digits and read back to the
/// value.
proof fn lemma_dec_of_val(n: nat)
    ensures
        dec_of(n).len() >= 1,
        dec_val(dec_of(n)) == n,
        forall|j: int| 0 <= j < dec_of(n).len() ==> is_digit(#[trigger] dec_of(n)[j]),
    decreases n,
{
    if n < 10 {
        lemma_digit_char_value(n);
        assert(dec_of(n) == seq![digit_char(n)]);
        assert(dec_of(n).drop_last() =~= Seq::<char>::empty());
        assert(dec_of(n).last() == digit_char(n));
        assert(dec_val(Seq::<char>::empty()) == 0);
        assert(dec_val(dec_of(n)) == digit_value(digit_char(n)));
    } else {
        lemma_dec_of_val(n / 10);
        lemma_digit_char_value(n % 10);
        assert(dec_of(n) == dec_of(n / 10) + seq![digit_char(n % 10)]);
        assert(dec_of(n).drop_last() =~= dec_of(n / 10));
        assert(dec_of(n).last() == digit_char(n % 10));
        assert(dec_val(dec_of(n)) == dec_val(dec_of(n / 10)) * 10 + digit_value(
            digit_char(n % 10),
        ));
        assert((n / 10) * 10 + n % 10 == n);
        assert forall|j: int| 0 <= j < dec_of(n).len() implies is_digit(#[trigger] dec_of(n)[j]) by {
            if j < dec_of(n).len() - 1 {
                assert(dec_of(n)[j] == dec_of(n / 10)[j]);
            } else {
                assert(dec_of(n)[j] == digit_char(n % 10));
            }
        }
    }
}

/// A prefix of a digit run never exceeds the whole run's value.
proof fn lemma_dec_val_prefix(ds: Seq<char>, j: int)
    requires
        0 <= j <= ds.len(),
    ensures
        dec_val(ds.take(j)) <= dec_val(ds),
    decreases ds.len() - j,
{
    if j == ds.len() {
        assert(ds.take(j) =~= ds);
    } else {
        assert(ds.take(j + 1).drop_last() =~= ds.take(j));
        assert(ds.take(j + 1).last() == ds[j]);
        assert(dec_val(ds.take(j + 1)) == dec_val(ds.take(j)) * 10 + digit_value(ds[j]));
        lemma_dec_val_prefix(ds, j + 1);
    }
}

/// Reads a run of decimal digits from `start`; hands back the value and
/// the index after the last digit. Every rendering of a value in the
/// position space, followed by a non-digit, is read back to that value;
/// a run whose value would overflow is given up on.
#[verifier::rlimit(100)]
#[verifier::spinoff_prover]
fn parse_dec_loose(s: &str, start: usize) -> (r: Option<(u64, usize)>)
    ensures
        r matches Some(t) ==> t.1 <= s@.len(),
        forall|v: u64, rest: Seq<char>| #![trigger dec_from(s@, start as int, v, rest)] (start <= s@.len() && v <= 0x7fffffffffffffff && dec_from(s@, start as int, v, rest)) ==> (r matches Some(t) && t.0 == v && t.1 == start + dec_of(v as nat).len()),
{
    let n: usize = s.unicode_len();
    if start > n {
        return None;
    }
    let mut i: usize = start;
    let mut val: u64 = 0;
    let mut digits: usize = 0;
    loop
        invariant
            n == s@.len(),
            start <= i <= n,
            digits == i - start,
            forall|v: u64, rest: Seq<char>| #![trigger dec_from(s@, start as int, v, rest)] (v <= 0x7fffffffffffffff && dec_from(s@, start as int, v, rest)) ==> (i - start <= dec_of(v as nat).len() && val == dec_val(dec_of(v as nat).take(i - start))),
        decreases n - i,
    {
        let ghost i0 = i as int;
        if i >= n {
            if digits == 0 {
                proof {
                    assert forall|v: u64, rest: Seq<char>| (v <= 0x7fffffffffffffff && dec_from(s@, start as int, v, rest)) implies false by {
                        lemma_dec_of_val(v as nat);
                        assert(s@.skip(start as int).len() == 0);
                        assert((dec_of(v as nat) + rest).len() >= 1);
                    }
                }
                return None;
            }
            proof {
                assert forall|v: u64, rest: Seq<char>| (v <= 0x7fffffffffffffff && dec_from(s@, start as int, v, rest)) implies (val == v && i0 == start + dec_of(v as nat).len()) by {
                    lemma_dec_of_val(v as nat);
                    let ds = dec_of(v as nat);
                    assert(s@.skip(start as int).len() == i0 - start);
                    assert(ds.len() + rest.len() == i0 - start);
                    assert(i0 - start <= ds.len());
                    assert(rest.len() == 0);
                    assert(i0 - start == ds.len());
                    assert(ds.take(ds.len() as int) =~= ds);
                    assert(val == dec_val(ds));
                }
            }
            return Some((val, i));
        }
        let c: char = s.get_char(i);
        let d: u64;
        match digit_val(c) {
            Some(dd) => {
                d = dd as u64;
            },
            None => {
                if digits == 0 {
                    proof {
                        assert forall|v: u64, rest: Seq<char>| (v <= 0x7fffffffffffffff && dec_from(s@, start as int, v, rest)) implies false by {
                            lemma_dec_of_val(v as nat);
                            let ds = dec_of(v as nat);
                            assert(s@.skip(start as int)[0] == s@[start as int]);
                            assert((ds + rest)[0] == ds[0]);
                            assert(is_digit(s@[start as int]));
                        }
                    }
                    return None;
                }
                proof {
                    assert forall|v: u64, rest: Seq<char>| (v <= 0x7fffffffffffffff && dec_from(s@, start as int, v, rest)) implies (val == v && i0 == start + dec_of(v as nat).len()) by {
                        lemma_dec_of_val(v as nat);
                        let ds = dec_of(v as nat);
                        let j = i0 - start;
                        if j < ds.len() {
                            assert(s@.skip(start as int)[j] == s@[start + j]);
                            assert((ds + rest)[j] == ds[j]);
                            assert(is_digit(s@[i0]));
                            assert(false);
                        }
                        assert(j == ds.len());
                        assert(ds.take(ds.len() as int) =~= ds);
                        assert(val == dec_val(ds));
                    }
                }
                return Some((val, i));
            },
        }
        if val > 1844674407370955160 {
            proof {
                assert forall|v: u64, rest: Seq<char>| (v <= 0x7fffffffffffffff && dec_from(s@, start as int, v, rest)) implies false by {
                    lemma_dec_of_val(v as nat);
                    let ds = dec_of(v as nat);
                    let j = i0 - start;
                    assert(s@.skip(start as int).len() == ds.len() + rest.len());
                    if j == ds.len() {
                        assert(rest.len() > 0);
                        assert(s@.skip(start as int)[j] == s@[start + j]);
                        assert((ds + rest)[j] == rest[0]);
                        assert(is_digit(s@[i0]));
                        assert(false);
                    }
                    assert(j < ds.len());
                    assert(ds.take(j + 1).drop_last() =~= ds.take(j));
                    assert(ds.take(j + 1).last() == ds[j]);
                    assert(dec_val(ds.take(j + 1)) == dec_val(ds.take(j)) * 10 + digit_value(
                        ds[j],
                    ));
                    assert(dec_val(ds.take(j + 1)) >= val * 10);
                    lemma_dec_val_prefix(ds, j + 1);
                    assert(dec_val(ds.take(j + 1)) <= v as nat);
                }
            }
            return None;
        }
        val = val * 10 + d;
        digits = digits + 1;
        i = i + 1;
        proof {
            assert forall|v: u64, rest: Seq<char>| (v <= 0x7fffffffffffffff && dec_from(s@, start as int, v, rest)) implies (i - start <= dec_of(v as nat).len() && val == dec_val(dec_of(v as nat).take(i - start))) by {
                lemma_dec_of_val(v as nat);
                let ds = dec_of(v as nat);
                let j = i0 - start;
                assert(s@.skip(start as int).len() == ds.len() + rest.len());
                if j == ds.len() {
                    assert(rest.len() > 0);
                    assert(s@.skip(start as int)[j] == s@[start + j]);
                    assert((ds + rest)[j] == rest[0]);
                    assert(is_digit(s@[i0]));
                    assert(false);
                }
                assert(j < ds.len());
                assert(s@.skip(start as int)[j] == s@[start + j]);
                assert((ds + rest)[j] == ds[j]);
                assert(s@[i0] == ds[j]);
                assert(digit_value(c) == d as nat);
                assert(ds.take(j + 1).drop_last() =~= ds.take(j));
                assert(ds.take(j + 1).last() == ds[j]);
                assert(dec_val(ds.take(j + 1)) == dec_val(ds.take(j)) * 10 + digit_value(ds[j]));
            }
        }
    }
}

/// The range text taken apart: where its literal pieces stand, and where
/// its two digit runs begin.
#[verifier::rlimit(100)]
#[verifier::spinoff_prover]
proof fn lemma_range_decomposition(s: Seq<char>, b: int, e: int)
    requires
        0 <= b <= 0x7fffffffffffffff,
        0 <= e <= 0x7fffffffffffffff,
        s == range_text(b, e),
    ensures
        s.len() == 17 + dec_of(b as nat).len() + dec_of(e as nat).len(),
        s.subrange(0, 9) == "{\"begin\":"@,
        dec_from(s, 9, b as u64, ",\"end\":"@ + dec_of(e as nat) + "}"@),
        s.subrange(9 + dec_of(b as nat).len() as int, 16 + dec_of(b as nat).len() as int) == ",\"end\":"@,
        dec_from(s, 16 + dec_of(b as nat).len() as int, e as u64, "}"@),
        s.subrange(s.len() as int - 1, s.len() as int) == "}"@,
{
    reveal_strlit("{\"begin\":");
    reveal_strlit(",\"end\":");
    reveal_strlit("}");
    let db = dec_of(b as nat);
    let de = dec_of(e as nat);
    lemma_dec_of_val(b as nat);
    lemma_dec_of_val(e as nat);
    assert((b as u64) as nat == b as nat);
    assert((e as u64) as nat == e as nat);
    assert(s =~= "{\"begin\":"@ + db + ",\"end\":"@ + de + "}"@);
    assert(s.subrange(0, 9) =~= "{\"begin\":"@);
    assert(s.skip(9) =~= db + (",\"end\":"@ + de + "}"@));
    assert((",\"end\":"@ + de + "}"@)[0] == ',');
    assert(!is_digit(','));
    assert(s.subrange(9 + db.len() as int, 16 + db.len() as int) =~= ",\"end\":"@);
    assert(s.skip(16 + db.len() as int) =~= de + "}"@);
    assert(("}"@)[0] == '}');
    assert(!is_digit('}'));
    assert(s.subrange(s.len() as int - 1, s.len() as int) =~= "}"@);
}

/// Reads the two bounds out of a range text. Every text the range
/// encoding writes for positions in the position space is read back to
/// its bounds; anything else is best effort, and the caller re-encodes
/// what comes back.
#[verifier::rlimit(100)]
#[verifier::spinoff_prover]
fn parse_range_loose(s: &str) -> (r: Option<(i64, i64)>)
    ensures
        r matches Some(t) ==> 0 <= t.0 && 0 <= t.1,
        forall|b: int, e: int| #![trigger range_text(b, e)] (0 <= b <= 0x7fffffffffffffff && 0 <= e <= 0x7fffffffffffffff && s@ == range_text(b, e)) ==> (r matches Some(t) && t.0 == b && t.1 == e),
{
    proof {
        reveal_strlit("{\"begin\":");
        reveal_strlit(",\"end\":");
        reveal_strlit("}");
        assert("{\"begin\":"@.len() == 9);
        assert(",\"end\":"@.len() == 7);
        assert("}"@.len() == 1);
    }
    let i1 = match expect_lit(s, 0, "{\"begin\":") {
        Some(i) => i,
        None => {
            proof {
                assert forall|b: int, e: int| (0 <= b <= 0x7fffffffffffffff && 0 <= e <= 0x7fffffffffffffff && s@ == range_text(b, e)) implies false by {
                    lemma_range_decomposition(s@, b, e);
                }
            }
            return None;
        },
    };
    let (bv, i2) = match parse_dec_loose(s, i1) {
        Some(t) => t,
        None => {
            proof {
                assert forall|b: int, e: int| (0 <= b <= 0x7fffffffffffffff && 0 <= e <= 0x7fffffffffffffff && s@ == range_text(b, e)) implies false by {
                    lemma_range_decomposition(s@, b, e);
                }
            }
            return None;
        },
    };
    let i3 = match expect_lit(s, i2, ",\"end\":") {
        Some(i) => i,
        None => {
            proof {
                assert forall|b: int, e: int| (0 <= b <= 0x7fffffffffffffff && 0 <= e <= 0x7fffffffffffffff && s@ == range_text(b, e)) implies false by {
                    lemma_range_decomposition(s@, b, e);
                    assert(bv == b as u64);
                    assert(i2 == 9 + dec_of(b as nat).len());
                }
            }
            return None;
        },
    };
    let (ev, i4) = match parse_dec_loose(s, i3) {
        Some(t) => t,
        None => {
            proof {
                assert forall|b: int, e: int| (0 <= b <= 0x7fffffffffffffff && 0 <= e <= 0x7fffffffffffffff && s@ == range_text(b, e)) implies false by {
                    lemma_range_decomposition(s@, b, e);
                    assert(bv == b as u64);
                    assert(i2 == 9 + dec_of(b as nat).len());
                    assert(i3 == 16 + dec_of(b as nat).len());
                }
            }
            return None;
        },
    };
    let i5 = match expect_lit(s, i4, "}") {
        Some(i) => i,
        None => {
            proof {
                assert forall|b: int, e: int| (0 <= b <= 0x7fffffffffffffff && 0 <= e <= 0x7fffffffffffffff && s@ == range_text(b, e)) implies false by {
                    lemma_range_decomposition(s@, b, e);
                    assert(bv == b as u64);
                    assert(i2 == 9 + dec_of(b as nat).len());
                    assert(i3 == 16 + dec_of(b as nat).len());
                    assert(ev == e as u64);
                    assert(i4 == 16 + dec_of(b as nat).len() + dec_of(e as nat).len());
                    assert(i4 == s@.len() - 1);
                }
            }
            return None;
        },
    };
    if i5 != s.unicode_len() {
        proof {
            assert forall|b: int, e: int| (0 <= b <= 0x7fffffffffffffff && 0 <= e <= 0x7fffffffffffffff && s@ == range_text(b, e)) implies false by {
                lemma_range_decomposition(s@, b, e);
                assert(bv == b as u64);
                assert(i2 == 9 + dec_of(b as nat).len());
                assert(i3 == 16 + dec_of(b as nat).len());
                assert(ev == e as u64);
                assert(i4 == 16 + dec_of(b as nat).len() + dec_of(e as nat).len());
                assert(i5 == s@.len());
            }
        }
        return None;
    }
    if bv > 0x7fffffffffffffff || ev > 0x7fffffffffffffff {
        proof {
            assert forall|b: int, e: int| (0 <= b <= 0x7fffffffffffffff && 0 <= e <= 0x7fffffffffffffff && s@ == range_text(b, e)) implies false by {
                lemma_range_decomposition(s@, b, e);
                assert(bv == b as u64);
                assert(ev == e as u64);
            }
        }
        return None;
    }
    proof {
        assert forall|b: int, e: int| (0 <= b <= 0x7fffffffffffffff && 0 <= e <= 0x7fffffffffffffff && s@ == range_text(b, e)) implies (bv as i64 == b && ev as i64 == e) by {
            lemma_range_decomposition(s@, b, e);
            assert(bv == b as u64);
            assert(ev == e as u64);
        }
    }
    Some((bv as i64, ev as i64))
}

/// Reads an inclusive position range back from its stored text. A range
/// that comes back re-encodes to exactly the input text, and every text
/// the range encoding writes for positions in the position space is read
/// back to its bounds.
pub(crate) fn parse_range_text(s: &str) -> (r: Option<(i64, i64)>)
    ensures
        r matches Some(t) ==> 0 <= t.0 && 0 <= t.1 && range_text(t.0 as int, t.1 as int) == s@,
        forall|b: int, e: int| #![trigger range_text(b, e)] (0 <= b <= 0x7fffffffffffffff && 0 <= e <= 0x7fffffffffffffff && s@ == range_text(b, e)) ==> (r matches Some(t) && t.0 == b && t.1 == e),
{
    let parsed = match parse_range_loose(s) {
        Some(t) => t,
        None => {
            return None;
        },
    };
    let re = range_to_text(parsed.0, parsed.1);
    let given = String::from_str(s);
    if re == given {
        Some(parsed)
    } else {
        proof {
            assert forall|b: int, e: int| (0 <= b <= 0x7fffffffffffffff && 0 <= e <= 0x7fffffffffffffff && s@ == range_text(b, e)) implies false by {
                assert(parsed.0 == b && parsed.1 == e);
                assert(re@ == range_text(b, e));
            }
        }
        None
    }
}

/// Writes the stored text of an inclusive position range.
pub(crate) fn range_to_text(begin: i64, end: i64) -> (r: String)
    requires
        0 <= begin,
        0 <= end,
    ensures
        r@ == range_text(begin as int, end as int),
{
    let mut out = String::new();
    out.append("{\"begin\":");
    append_dec(&mut out, begin as u64);
    out.append(",\"end\":");
    append_dec(&mut out, end as u64);
    out.append("}");
    proof {
        assert(out@ =~= range_text(begin as int, end as int));
    }
    out
}

} // verus!
