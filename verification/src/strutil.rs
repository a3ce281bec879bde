//! Verified string helpers: decimal rendering, zero-padding, character
//! search, substring replacement, and comma splitting with trimming.

use vstd::prelude::*;

verus! {

pub open spec fn spec_digit_char(d: int) -> char {
    if d == 0 {
        '0'
    } else if d == 1 {
        '1'
    } else if d == 2 {
        '2'
    } else if d == 3 {
        '3'
    } else if d == 4 {
        '4'
    } else if d == 5 {
        '5'
    } else if d == 6 {
        '6'
    } else if d == 7 {
        '7'
    } else if d == 8 {
        '8'
    } else {
        '9'
    }
}

/// The decimal digits of a non-negative number, most significant first.
pub open spec fn spec_dec_digits(n: int) -> Seq<char>
    decreases n,
{
    if n < 10 {
        seq![spec_digit_char(n)]
    } else {
        spec_dec_digits(n / 10).push(spec_digit_char(n % 10))
    }
}

fn digit_str(d: u64) -> (r: &'static str)
    requires
        d < 10,
    ensures
        r@ =~= seq![spec_digit_char(d as int)],
{
    proof {
        reveal_strlit("0");
        reveal_strlit("1");
        reveal_strlit("2");
        reveal_strlit("3");
        reveal_strlit("4");
        reveal_strlit("5");
        reveal_strlit("6");
        reveal_strlit("7");
        reveal_strlit("8");
        reveal_strlit("9");
    }
    if d == 0 {
        "0"
    } else if d == 1 {
        "1"
    } else if d == 2 {
        "2"
    } else if d == 3 {
        "3"
    } else if d == 4 {
        "4"
    } else if d == 5 {
        "5"
    } else if d == 6 {
        "6"
    } else if d == 7 {
        "7"
    } else if d == 8 {
        "8"
    } else {
        "9"
    }
}

/// Append the decimal rendering of `n`.
pub fn append_dec_u64(s: &mut String, n: u64)
    ensures
        final(s)@ == old(s)@ + spec_dec_digits(n as int),
    decreases n,
{
    if n >= 10 {
        append_dec_u64(s, n / 10);
        let d = digit_str(n % 10);
        s.append(d);
        proof {
            assert(old(s)@ + spec_dec_digits(n as int / 10) + seq![
                spec_digit_char(n as int % 10),
            ] =~= old(s)@ + spec_dec_digits(n as int));
        }
    } else {
        let d = digit_str(n);
        s.append(d);
        proof {
            assert(old(s)@ + seq![spec_digit_char(n as int)] =~= old(s)@ + spec_dec_digits(
                n as int,
            ));
        }
    }
}

/// The decimal rendering of `n`.
pub fn u64_to_dec(n: u64) -> (r: String)
    ensures
        r@ == spec_dec_digits(n as int),
{
    let mut s = String::new();
    append_dec_u64(&mut s, n);
    proof {
        assert(Seq::<char>::empty() + spec_dec_digits(n as int) =~= spec_dec_digits(n as int));
    }
    s
}

/// The decimal rendering of `n`, left-padded with zeros to at least
/// `width` characters.
pub open spec fn spec_pad_dec(n: int, width: int) -> Seq<char> {
    let d = spec_dec_digits(n);
    if d.len() >= width {
        d
    } else {
        Seq::new((width - d.len()) as nat, |i: int| '0') + d
    }
}

pub proof fn lemma_dec_digits_len(n: int)
    ensures
        spec_dec_digits(n).len() >= 1,
    decreases n,
{
    if n >= 10 {
        lemma_dec_digits_len(n / 10);
    }
}

/// Number of decimal digits of `n`.
pub fn dec_len_u64(n: u64) -> (r: usize)
    ensures
        r == spec_dec_digits(n as int).len(),
        r >= 1,
{
    let rendered = u64_to_dec(n);
    proof {
        lemma_dec_digits_len(n as int);
    }
    rendered.as_str().unicode_len()
}

/// Append the decimal rendering of `n`, zero-padded to at least `width`.
pub fn append_pad_dec_u64(s: &mut String, n: u64, width: usize)
    ensures
        final(s)@ == old(s)@ + spec_pad_dec(n as int, width as int),
    decreases n,
{
    let len = dec_len_u64(n);
    let mut pad: usize = 0;
    let ghost target = spec_pad_dec(n as int, width as int);
    while pad + len < width
        invariant
            s@ == old(s)@ + Seq::new(pad as nat, |i: int| '0'),
            len == spec_dec_digits(n as int).len(),
            pad + len <= width || pad == 0,
        decreases width - pad,
    {
        s.append(digit_str(0));
        proof {
            assert(old(s)@ + Seq::new(pad as nat, |i: int| '0') + seq!['0'] =~= old(s)@ + Seq::new(
                (pad + 1) as nat,
                |i: int| '0',
            ));
        }
        pad = pad + 1;
    }
    append_dec_u64(s, n);
    proof {
        if spec_dec_digits(n as int).len() >= width {
            assert(pad == 0);
            assert(old(s)@ + Seq::new(0nat, |i: int| '0') =~= old(s)@);
        } else {
            assert(pad == width - len);
        }
        assert(old(s)@ + Seq::new(pad as nat, |i: int| '0') + spec_dec_digits(n as int) =~= old(
            s,
        )@ + spec_pad_dec(n as int, width as int));
    }
}

/// Whether `c` occurs in `s`.
pub open spec fn spec_contains_char(s: Seq<char>, c: char) -> bool {
    exists|i: int| 0 <= i < s.len() && s[i] == c
}

pub fn contains_char(s: &str, c: char) -> (r: bool)
    ensures
        r == spec_contains_char(s@, c),
{
    let n = s.unicode_len();
    let mut i: usize = 0;
    while i < n
        invariant
            i <= n,
            n == s@.len(),
            forall|k: int| 0 <= k < i ==> s@[k] != c,
        decreases n - i,
    {
        if s.get_char(i) == c {
            return true;
        }
        i = i + 1;
    }
    false
}

/// `s` with every non-overlapping occurrence of `pat`, scanned left to
/// right, replaced by `rep`; with an empty pattern, `s` unchanged.
pub open spec fn spec_replace(s: Seq<char>, pat: Seq<char>, rep: Seq<char>) -> Seq<char>
    decreases s.len(),
{
    if pat.len() == 0 || s.len() < pat.len() {
        s
    } else if s.subrange(0, pat.len() as int) == pat {
        rep + spec_replace(s.skip(pat.len() as int), pat, rep)
    } else {
        seq![s[0]] + spec_replace(s.skip(1), pat, rep)
    }
}

pub fn replace_all(s: &str, pat: &str, rep: &str) -> (r: String)
    ensures
        r@ == spec_replace(s@, pat@, rep@),
{
    let n = s.unicode_len();
    let m = pat.unicode_len();
    let mut out = String::new();
    if m == 0 {
        out.append(s);
        proof {
            assert(Seq::<char>::empty() + s@ =~= s@);
        }
        return out;
    }
    let mut i: usize = 0;
    proof {
        assert(Seq::<char>::empty() + spec_replace(s@.skip(0), pat@, rep@) =~= spec_replace(
            s@.skip(0),
            pat@,
            rep@,
        ));
        assert(s@.skip(0) =~= s@);
    }
    while i < n
        invariant
            i <= n,
            n == s@.len(),
            m == pat@.len(),
            m >= 1,
            spec_replace(s@, pat@, rep@) == out@ + spec_replace(s@.skip(i as int), pat@, rep@),
        decreases n - i,
    {
        let ghost tail = s@.skip(i as int);
        if m <= n - i {
            let mut j: usize = 0;
            let mut matched: bool = true;
            while j < m
                invariant
                    j <= m,
                    m == pat@.len(),
                    m <= n - i,
                    i <= n,
                    n == s@.len(),
                    matched ==> forall|t: int| 0 <= t < j ==> s@[i + t] == pat@[t],
                    !matched ==> s@.subrange(i as int, i as int + m as int) != pat@,
                decreases m - j,
            {
                if matched {
                    let sc = s.get_char(i + j);
                    let pc = pat.get_char(j);
                    if sc != pc {
                        proof {
                            assert(s@.subrange(i as int, i as int + m as int)[j as int] == s@[i
                                + j]);
                        }
                        matched = false;
                    }
                }
                j = j + 1;
            }
            if matched {
                out.append(rep);
                proof {
                    assert(tail.subrange(0, m as int) =~= s@.subrange(
                        i as int,
                        i as int + m as int,
                    ));
                    assert(s@.subrange(i as int, i as int + m as int) =~= pat@);
                    assert(tail.skip(m as int) =~= s@.skip(i as int + m as int));
                    assert(spec_replace(tail, pat@, rep@) == rep@ + spec_replace(
                        s@.skip(i as int + m as int),
                        pat@,
                        rep@,
                    ));
                    assert(out@ + rep@ + spec_replace(s@.skip(i as int + m as int), pat@, rep@)
                        =~= out@ + (rep@ + spec_replace(s@.skip(i as int + m as int), pat@, rep@)));
                }
                i = i + m;
            } else {
                let piece = s.substring_char(i, i + 1);
                out.append(piece);
                proof {
                    assert(tail.subrange(0, m as int) =~= s@.subrange(
                        i as int,
                        i as int + m as int,
                    ));
                    assert(tail.skip(1) =~= s@.skip(i as int + 1));
                    assert(seq![tail[0]] =~= s@.subrange(i as int, i as int + 1));
                    assert(spec_replace(tail, pat@, rep@) == seq![tail[0]] + spec_replace(
                        s@.skip(i as int + 1),
                        pat@,
                        rep@,
                    ));
                    assert(out@ + s@.subrange(i as int, i as int + 1) + spec_replace(
                        s@.skip(i as int + 1),
                        pat@,
                        rep@,
                    ) =~= out@ + (seq![tail[0]] + spec_replace(s@.skip(i as int + 1), pat@, rep@)));
                }
                i = i + 1;
            }
        } else {
            let piece = s.substring_char(i, n);
            out.append(piece);
            proof {
                assert(tail.len() < m);
                assert(spec_replace(tail, pat@, rep@) == tail);
                assert(tail =~= s@.subrange(i as int, n as int));
                assert(s@.skip(n as int).len() == 0);
                assert(spec_replace(s@.skip(n as int), pat@, rep@) == s@.skip(n as int));
                assert(out@ + s@.subrange(i as int, n as int) + spec_replace(
                    s@.skip(n as int),
                    pat@,
                    rep@,
                ) =~= out@ + tail);
            }
            i = n;
        }
    }
    proof {
        assert(s@.skip(n as int).len() == 0);
        assert(spec_replace(s@.skip(n as int), pat@, rep@) == s@.skip(n as int));
        assert(out@ + s@.skip(n as int) =~= out@);
    }
    out
}

/// A numeric id substituted into a template: `%d` becomes the plain
/// decimal value, `%04d`, `%03d` and `%02d` its zero-padded renderings,
/// replaced in that order.
pub open spec fn spec_subst_id(t: Seq<char>, id: int) -> Seq<char> {
    let a = spec_replace(t, seq!['%', 'd'], spec_dec_digits(id));
    let b = spec_replace(a, seq!['%', '0', '4', 'd'], spec_pad_dec(id, 4));
    let c = spec_replace(b, seq!['%', '0', '3', 'd'], spec_pad_dec(id, 3));
    spec_replace(c, seq!['%', '0', '2', 'd'], spec_pad_dec(id, 2))
}

pub fn subst_id(template: &str, id: u32) -> (r: String)
    ensures
        r@ == spec_subst_id(template@, id as int),
{
    let dec = u64_to_dec(id as u64);
    let mut pad4 = String::new();
    append_pad_dec_u64(&mut pad4, id as u64, 4);
    let mut pad3 = String::new();
    append_pad_dec_u64(&mut pad3, id as u64, 3);
    let mut pad2 = String::new();
    append_pad_dec_u64(&mut pad2, id as u64, 2);
    proof {
        reveal_strlit("%d");
        reveal_strlit("%04d");
        reveal_strlit("%03d");
        reveal_strlit("%02d");
        assert("%d"@ =~= seq!['%', 'd']);
        assert("%04d"@ =~= seq!['%', '0', '4', 'd']);
        assert("%03d"@ =~= seq!['%', '0', '3', 'd']);
        assert("%02d"@ =~= seq!['%', '0', '2', 'd']);
        assert(pad4@ =~= spec_pad_dec(id as int, 4));
        assert(pad3@ =~= spec_pad_dec(id as int, 3));
        assert(pad2@ =~= spec_pad_dec(id as int, 2));
    }
    let a = replace_all(template, "%d", dec.as_str());
    let b = replace_all(a.as_str(), "%04d", pad4.as_str());
    let c = replace_all(b.as_str(), "%03d", pad3.as_str());
    replace_all(c.as_str(), "%02d", pad2.as_str())
}

/// Whitespace for trimming purposes: space, tab, carriage return, line
/// feed.
pub open spec fn spec_is_space(c: char) -> bool {
    c == ' ' || c == '\t' || c == '\r' || c == '\n'
}

fn is_space(c: char) -> (r: bool)
    ensures
        r == spec_is_space(c),
{
    c == ' ' || c == '\t' || c == '\r' || c == '\n'
}

/// `s` without leading whitespace.
pub open spec fn spec_trim_start(s: Seq<char>) -> Seq<char>
    decreases s.len(),
{
    if s.len() > 0 && spec_is_space(s[0]) {
        spec_trim_start(s.skip(1))
    } else {
        s
    }
}

/// `s` without trailing whitespace.
pub open spec fn spec_trim_end(s: Seq<char>) -> Seq<char>
    decreases s.len(),
{
    if s.len() > 0 && spec_is_space(s.last()) {
        spec_trim_end(s.drop_last())
    } else {
        s
    }
}

/// `s` without leading and trailing whitespace.
pub open spec fn spec_trim(s: Seq<char>) -> Seq<char> {
    spec_trim_end(spec_trim_start(s))
}

proof fn lemma_trim_start_at(s: Seq<char>, a: int)
    requires
        0 <= a <= s.len(),
        forall|k: int| 0 <= k < a ==> spec_is_space(s[k]),
        a == s.len() || !spec_is_space(s[a]),
    ensures
        spec_trim_start(s) =~= s.skip(a),
    decreases a,
{
    if a == 0 {
        if s.len() > 0 && spec_is_space(s[0]) {
            assert(false);
        }
        assert(s.skip(0) =~= s);
    } else {
        assert(spec_is_space(s[0]));
        assert forall|k: int| 0 <= k < a - 1 implies spec_is_space(s.skip(1)[k]) by {
            assert(s.skip(1)[k] == s[k + 1]);
        }
        assert(a - 1 == s.skip(1).len() || !spec_is_space(s.skip(1)[a - 1]));
        lemma_trim_start_at(s.skip(1), a - 1);
        assert(s.skip(1).skip(a - 1) =~= s.skip(a));
    }
}

proof fn lemma_trim_end_at(s: Seq<char>, b: int)
    requires
        0 <= b <= s.len(),
        forall|k: int| b <= k < s.len() ==> spec_is_space(s[k]),
        b == 0 || !spec_is_space(s[b - 1]),
    ensures
        spec_trim_end(s) =~= s.subrange(0, b),
    decreases s.len() - b,
{
    if b == s.len() {
        if s.len() > 0 && spec_is_space(s.last()) {
            assert(spec_trim_end(s) == spec_trim_end(s.drop_last()));
            assert forall|k: int| b - 1 <= k < s.drop_last().len() implies spec_is_space(
                s.drop_last()[k],
            ) by {
                assert(s.drop_last()[k] == s[k]);
            }
            lemma_trim_end_at(s.drop_last(), b - 1);
            assert(s.drop_last().subrange(0, b - 1) =~= s.subrange(0, b - 1));
            assert(false) by {
                assert(b == 0 || !spec_is_space(s[b - 1]));
                assert(spec_is_space(s.last()));
                assert(s.last() == s[b - 1]);
            }
        }
        assert(s.subrange(0, b) =~= s);
    } else {
        assert(spec_is_space(s.last()));
        assert forall|k: int| b <= k < s.drop_last().len() implies spec_is_space(
            s.drop_last()[k],
        ) by {
            assert(s.drop_last()[k] == s[k]);
        }
        if b > 0 {
            assert(s.drop_last()[b - 1] == s[b - 1]);
        }
        lemma_trim_end_at(s.drop_last(), b);
        assert(s.drop_last().subrange(0, b) =~= s.subrange(0, b));
    }
}

/// `s` without leading or trailing whitespace.
pub fn trim_str(s: &str) -> (r: String)
    ensures
        r@ == spec_trim(s@),
{
    let n = s.unicode_len();
    let mut a: usize = 0;
    while a < n && is_space(s.get_char(a))
        invariant
            a <= n,
            n == s@.len(),
            forall|k: int| 0 <= k < a ==> spec_is_space(s@[k]),
        decreases n - a,
    {
        a = a + 1;
    }
    let mut b: usize = n;
    while b > a && is_space(s.get_char(b - 1))
        invariant
            a <= b <= n,
            n == s@.len(),
            forall|k: int| b <= k < n ==> spec_is_space(s@[k]),
        decreases b,
    {
        b = b - 1;
    }
    proof {
        lemma_trim_start_at(s@, a as int);
        let t = s@.skip(a as int);
        assert forall|k: int| (b - a) <= k < t.len() implies spec_is_space(t[k]) by {
            assert(t[k] == s@[k + a]);
        }
        if b > a {
            assert(t[b - a - 1] == s@[b - 1]);
            assert(!spec_is_space(t[b - a - 1]));
        }
        lemma_trim_end_at(t, b as int - a as int);
        assert(t.subrange(0, b as int - a as int) =~= s@.subrange(a as int, b as int));
    }
    let piece = s.substring_char(a, b);
    let mut out = String::new();
    out.append(piece);
    proof {
        assert(Seq::<char>::empty() + piece@ =~= piece@);
    }
    out
}

/// Index of the first `sep` in `s`, or -1.
pub open spec fn spec_find_sep(s: Seq<char>, sep: char) -> int
    decreases s.len(),
{
    if s.len() == 0 {
        -1
    } else if s[0] == sep {
        0
    } else {
        let r = spec_find_sep(s.skip(1), sep);
        if r < 0 {
            -1
        } else {
            1 + r
        }
    }
}

pub proof fn lemma_find_sep_at(s: Seq<char>, sep: char, j: int)
    requires
        0 <= j <= s.len(),
        forall|k: int| 0 <= k < j ==> s[k] != sep,
        j == s.len() || s[j] == sep,
    ensures
        j < s.len() ==> spec_find_sep(s, sep) == j,
        j == s.len() ==> spec_find_sep(s, sep) == -1,
    decreases j + 1,
{
    if s.len() == 0 {
    } else if j == 0 {
    } else {
        assert(s[0] != sep);
        assert forall|k: int| 0 <= k < j - 1 implies s.skip(1)[k] != sep by {
            assert(s.skip(1)[k] == s[k + 1]);
        }
        if j < s.len() {
            assert(s.skip(1)[j - 1] == s[j]);
        }
        lemma_find_sep_at(s.skip(1), sep, j - 1);
    }
}

/// The pieces of `s` between occurrences of `sep`; one piece per
/// separator plus one, in order.
pub open spec fn spec_split(s: Seq<char>, sep: char) -> Seq<Seq<char>>
    decreases s.len(),
{
    let f = spec_find_sep(s, sep);
    if f < 0 || f >= s.len() {
        seq![s]
    } else {
        seq![s.subrange(0, f)] + spec_split(s.skip(f + 1), sep)
    }
}

/// The pieces of `s` between commas, each trimmed of surrounding
/// whitespace.
pub fn split_trimmed(s: &str, sep: char) -> (r: Vec<String>)
    ensures
        r@.len() == spec_split(s@, sep).len(),
        forall|i: int|
            0 <= i < r@.len() ==> (#[trigger] r@[i])@ == spec_trim(spec_split(s@, sep)[i]),
{
    let n = s.unicode_len();
    let mut out: Vec<String> = Vec::new();
    let mut st: usize = 0;
    let ghost mut processed: Seq<Seq<char>> = Seq::empty();
    proof {
        assert(s@.skip(0) =~= s@);
        assert(Seq::<Seq<char>>::empty() + spec_split(s@, sep) =~= spec_split(s@, sep));
    }
    loop
        invariant
            st <= n,
            n == s@.len(),
            out@.len() == processed.len(),
            spec_split(s@, sep) == processed + spec_split(s@.skip(st as int), sep),
            forall|i: int|
                0 <= i < out@.len() ==> (#[trigger] out@[i])@ == spec_trim(processed[i]),
        decreases n - st,
    {
        let ghost tail = s@.skip(st as int);
        let mut e: usize = st;
        while e < n && s.get_char(e) != sep
            invariant
                st <= e <= n,
                n == s@.len(),
                forall|k: int| st <= k < e ==> s@[k] != sep,
            decreases n - e,
        {
            e = e + 1;
        }
        proof {
            assert forall|k: int| 0 <= k < (e - st) implies tail[k] != sep by {
                assert(tail[k] == s@[k + st]);
            }
            if e < n {
                assert(tail[e - st] == s@[e as int]);
            }
            lemma_find_sep_at(tail, sep, e as int - st as int);
        }
        let piece_src = s.substring_char(st, e);
        let piece = trim_str(piece_src);
        proof {
            assert(piece_src@ =~= tail.subrange(0, e as int - st as int));
        }
        if e < n {
            out.push(piece);
            proof {
                assert(spec_split(tail, sep) == seq![tail.subrange(0, e as int - st as int)]
                    + spec_split(tail.skip(e as int - st as int + 1), sep));
                assert(tail.skip(e as int - st as int + 1) =~= s@.skip(e as int + 1));
                let ghost prev = processed;
                processed = processed.push(tail.subrange(0, e as int - st as int));
                assert(prev + (seq![tail.subrange(0, e as int - st as int)] + spec_split(
                    s@.skip(e as int + 1),
                    sep,
                )) =~= processed + spec_split(s@.skip(e as int + 1), sep));
                assert(spec_split(s@, sep) == processed + spec_split(s@.skip(e as int + 1), sep));
            }
            st = e + 1;
        } else {
            proof {
                assert(spec_find_sep(tail, sep) == -1);
                assert(spec_split(tail, sep) == seq![tail]);
                assert(tail =~= tail.subrange(0, e as int - st as int));
            }
            out.push(piece);
            proof {
                processed = processed.push(tail);
                assert(spec_split(s@, sep) == processed);
                assert(processed + Seq::<Seq<char>>::empty() =~= processed);
            }
            return out;
        }
    }
}

} // verus!
