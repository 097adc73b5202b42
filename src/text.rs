//! Character-level helpers on strings.

use vstd::prelude::*;

verus! {

/// The characters of `s`, in order.
pub fn chars_of(s: &str) -> (r: Vec<char>)
    ensures
        r@ == s@,
{
    let mut r: Vec<char> = Vec::new();
    for c in it: s.chars()
        invariant
            it.seq() == s@,
            r@ == it.seq().take(it.index() as int),
    {
        r.push(c);
    }
    r
}

/// Relies on String::push: appends one character.
#[verifier::external_body]
fn push_char(s: &mut String, c: char)
    ensures
        final(s)@ == old(s)@.push(c),
{
    s.push(c)
}

/// The string made of `cs[from..to]`.
pub fn string_of(cs: &Vec<char>, from: usize, to: usize) -> (r: String)
    requires
        from <= to <= cs@.len(),
    ensures
        r@ == cs@.subrange(from as int, to as int),
{
    let mut r = String::new();
    let mut i: usize = from;
    while i < to
        invariant
            from <= i <= to <= cs@.len(),
            r@ == cs@.subrange(from as int, i as int),
        decreases to - i,
    {
        push_char(&mut r, cs[i]);
        i = i + 1;
    }
    r
}

/// Unicode White_Space: the characters `char::is_whitespace` accepts and the
/// regular-expression class `\s` matches.
pub open spec fn is_white_space(c: char) -> bool {
    let u = c as u32;
    ||| 0x09 <= u <= 0x0D
    ||| u == 0x20
    ||| u == 0x85
    ||| u == 0xA0
    ||| u == 0x1680
    ||| 0x2000 <= u <= 0x200A
    ||| u == 0x2028
    ||| u == 0x2029
    ||| u == 0x202F
    ||| u == 0x205F
    ||| u == 0x3000
}

pub fn white_space(c: char) -> (r: bool)
    ensures
        r == is_white_space(c),
{
    let u = c as u32;
    (0x09 <= u && u <= 0x0D) || u == 0x20 || u == 0x85 || u == 0xA0 || u == 0x1680 || (0x2000 <= u
        && u <= 0x200A) || u == 0x2028 || u == 0x2029 || u == 0x202F || u == 0x205F || u == 0x3000
}

/// The maximal runs of non-white-space characters of `s`, in order.
pub open spec fn split_ws(s: Seq<char>) -> Seq<Seq<char>>
    decreases s.len(),
{
    if s.len() == 0 {
        Seq::empty()
    } else {
        let w = split_ws(s.drop_last());
        let c = s.last();
        if is_white_space(c) {
            w
        } else if s.len() >= 2 && !is_white_space(s[s.len() - 2]) {
            w.update(w.len() - 1, w.last().push(c))
        } else {
            w.push(seq![c])
        }
    }
}

/// The words of `cs`, split at white space.
pub fn split_words(cs: &Vec<char>) -> (r: Vec<String>)
    ensures
        r@.map_values(|w: String| w@) == split_ws(cs@),
{
    let mut out: Vec<String> = Vec::new();
    let n = cs.len();
    let mut start: usize = 0;
    let mut in_word = false;
    let mut i: usize = 0;
    while i < n
        invariant
            i <= n == cs@.len(),
            start <= i,
            in_word == (i > 0 && !is_white_space(cs@[i - 1])),
            in_word ==> start < i && split_ws(cs@.take(i as int)) == out@.map_values(|w: String| w@).push(cs@.subrange(start as int, i as int)),
            !in_word ==> split_ws(cs@.take(i as int)) == out@.map_values(|w: String| w@),
        decreases n - i,
    {
        let c = cs[i];
        let ghost prefix = cs@.take(i as int + 1);
        assert(prefix.drop_last() == cs@.take(i as int));
        assert(prefix.last() == c);
        if white_space(c) {
            if in_word {
                let w = string_of(cs, start, i);
                out.push(w);
                assert(out@.map_values(|w: String| w@) == split_ws(cs@.take(i as int)));
            }
            in_word = false;
        } else {
            if in_word {
                proof {
                    assert(prefix[prefix.len() - 2] == cs@[i - 1]);
                    assert(cs@.subrange(start as int, i as int + 1) == cs@.subrange(start as int, i as int).push(c));
                }
            } else {
                start = i;
                proof {
                    if i > 0 {
                        assert(prefix[prefix.len() - 2] == cs@[i - 1]);
                    }
                    assert(cs@.subrange(start as int, i as int + 1) =~= seq![c]);
                }
            }
            in_word = true;
        }
        i = i + 1;
    }
    assert(cs@.take(n as int) == cs@);
    if in_word {
        let w = string_of(cs, start, n);
        out.push(w);
        assert(out@.map_values(|w: String| w@) =~= split_ws(cs@));
    }
    out
}

/// `s` without its leading white space.
pub open spec fn trim_start(s: Seq<char>) -> Seq<char>
    decreases s.len(),
{
    if s.len() > 0 && is_white_space(s[0]) {
        trim_start(s.drop_first())
    } else {
        s
    }
}

/// `s` without its trailing white space.
pub open spec fn trim_end(s: Seq<char>) -> Seq<char>
    decreases s.len(),
{
    if s.len() > 0 && is_white_space(s.last()) {
        trim_end(s.drop_last())
    } else {
        s
    }
}

/// `s` without leading and trailing white space.
pub open spec fn trim_ws(s: Seq<char>) -> Seq<char> {
    trim_end(trim_start(s))
}

/// `cs[from..to]` without leading and trailing white space.
pub fn trimmed(cs: &Vec<char>, from: usize, to: usize) -> (r: String)
    requires
        from <= to <= cs@.len(),
    ensures
        r@ == trim_ws(cs@.subrange(from as int, to as int)),
{
    let mut a: usize = from;
    while a < to && white_space(cs[a])
        invariant
            from <= a <= to <= cs@.len(),
            trim_start(cs@.subrange(from as int, to as int)) == trim_start(cs@.subrange(a as int, to as int)),
        decreases to - a,
    {
        assert(cs@.subrange(a as int, to as int).drop_first() == cs@.subrange(a as int + 1, to as int));
        a = a + 1;
    }
    let mut b: usize = to;
    while b > a && white_space(cs[b - 1])
        invariant
            from <= a <= b <= to <= cs@.len(),
            trim_end(cs@.subrange(a as int, to as int)) == trim_end(cs@.subrange(a as int, b as int)),
        decreases b - a,
    {
        assert(cs@.subrange(a as int, b as int).drop_last() == cs@.subrange(a as int, b as int - 1));
        b = b - 1;
    }
    string_of(cs, a, b)
}

/// The pieces of `s` between commas, empty ones included.
pub open spec fn split_commas(s: Seq<char>) -> Seq<Seq<char>>
    decreases s.len(),
{
    if s.len() == 0 {
        seq![Seq::empty()]
    } else {
        let w = split_commas(s.drop_last());
        if s.last() == ',' {
            w.push(Seq::empty())
        } else {
            w.update(w.len() - 1, w.last().push(s.last()))
        }
    }
}

/// The comma-separated pieces of `cs[from..to]`, each trimmed.
pub fn trimmed_comma_pieces(cs: &Vec<char>, from: usize, to: usize) -> (r: Vec<String>)
    requires
        from <= to <= cs@.len(),
    ensures
        r@.map_values(|w: String| w@) == split_commas(cs@.subrange(from as int, to as int)).map_values(
            |w: Seq<char>| trim_ws(w),
        ),
{
    let mut out: Vec<String> = Vec::new();
    let ghost mut raw: Seq<Seq<char>> = Seq::empty();
    let mut start: usize = from;
    let mut i: usize = from;
    assert(cs@.subrange(from as int, from as int) =~= Seq::<char>::empty());
    while i < to
        invariant
            from <= start <= i <= to <= cs@.len(),
            out@.len() == raw.len(),
            forall|j: int| 0 <= j < raw.len() ==> #[trigger] out@[j]@ == trim_ws(raw[j]),
            split_commas(cs@.subrange(from as int, i as int)) == raw.push(cs@.subrange(start as int, i as int)),
        decreases to - i,
    {
        let ghost prefix = cs@.subrange(from as int, i as int + 1);
        assert(prefix.drop_last() == cs@.subrange(from as int, i as int));
        assert(prefix.last() == cs@[i as int]);
        if cs[i] == ',' {
            let piece = trimmed(cs, start, i);
            let ghost o = out@;
            let ghost r0 = raw;
            out.push(piece);
            proof {
                raw = raw.push(cs@.subrange(start as int, i as int));
                assert forall|j: int| 0 <= j < o.len() implies out@[j]@ == trim_ws(raw[j]) by {
                    assert(out@[j] == o[j]);
                    assert(raw[j] == r0[j]);
                }
                assert(cs@.subrange(i as int + 1, i as int + 1) =~= Seq::<char>::empty());
            }
            start = i + 1;
        } else {
            proof {
                assert(cs@.subrange(start as int, i as int + 1) == cs@.subrange(start as int, i as int).push(cs@[i as int]));
            }
        }
        i = i + 1;
    }
    let piece = trimmed(cs, start, to);
    let ghost o = out@;
    out.push(piece);
    proof {
        let full = raw.push(cs@.subrange(start as int, to as int));
        assert forall|j: int| 0 <= j < o.len() implies out@[j]@ == trim_ws(full[j]) by {
            assert(out@[j] == o[j]);
            assert(full[j] == raw[j]);
        }
        assert(out@.map_values(|w: String| w@) =~= full.map_values(|w: Seq<char>| trim_ws(w)));
    }
    out
}

} // verus!
