//! Values of `key = "value"` lines, as application bundles describe
//! themselves.

use vstd::prelude::*;

use crate::strings::push_char;

verus! {

/// The characters that `char::is_whitespace` accepts: those with the
/// Unicode `White_Space` property.
pub open spec fn is_white(c: char) -> bool {
    let v = c as u32;
    (9 <= v <= 13) || v == 32 || v == 0x85 || v == 0xA0 || v == 0x1680 || (0x2000 <= v <= 0x200A)
        || v == 0x2028 || v == 0x2029 || v == 0x202F || v == 0x205F || v == 0x3000
}

/// `s` without its leading white space.
pub open spec fn trim_start(s: Seq<char>) -> Seq<char>
    decreases s.len(),
{
    if s.len() > 0 && is_white(s[0]) {
        trim_start(s.drop_first())
    } else {
        s
    }
}

/// `s` without its trailing white space.
pub open spec fn trim_end(s: Seq<char>) -> Seq<char>
    decreases s.len(),
{
    if s.len() > 0 && is_white(s.last()) {
        trim_end(s.drop_last())
    } else {
        s
    }
}

/// `s` without its leading and trailing white space.
pub open spec fn trim(s: Seq<char>) -> Seq<char> {
    trim_end(trim_start(s))
}

/// The index of the first `c` in `s`, or -1.
pub open spec fn index_of(s: Seq<char>, c: char) -> int
    decreases s.len(),
{
    if s.len() == 0 {
        -1
    } else if s[0] == c {
        0
    } else {
        let i = index_of(s.drop_first(), c);
        if i < 0 {
            -1
        } else {
            i + 1
        }
    }
}

/// The value that a line gives for `key`: the line is split at its first
/// `=`, the part before it must be `key` once trimmed, and the part after
/// it, once trimmed, must be quoted; the value is what the quotes enclose.
pub open spec fn line_value(line: Seq<char>, key: Seq<char>) -> Option<Seq<char>> {
    let eq = index_of(line, '=');
    if eq < 0 {
        None
    } else if trim(line.take(eq)) != key {
        None
    } else {
        let v = trim(line.skip(eq + 1));
        if v.len() > 0 && v[0] == '"' && v.drop_first().len() > 0 && v.drop_first().last() == '"' {
            Some(v.drop_first().drop_last())
        } else {
            None
        }
    }
}

/// A line that was ended by a newline loses a carriage return before it.
pub open spec fn strip_cr(line: Seq<char>) -> Seq<char> {
    if line.len() > 0 && line.last() == '\r' {
        line.drop_last()
    } else {
        line
    }
}

/// The value of the first line of `text` that gives one for `key`.  Lines
/// end at a newline, or at the end of the text when it does not end with
/// one.
pub open spec fn first_value(text: Seq<char>, key: Seq<char>) -> Option<Seq<char>>
    decreases text.len(),
{
    if text.len() == 0 {
        None
    } else {
        let nl = index_of(text, '\n');
        if nl < 0 {
            line_value(text, key)
        } else {
            match line_value(strip_cr(text.take(nl)), key) {
                Some(v) => Some(v),
                None => {
                    proof {
                        lemma_index_of(text, '\n');
                    }
                    first_value(text.skip(nl + 1), key)
                },
            }
        }
    }
}

/// The characters of `s`.
pub fn chars_of(s: &str) -> (r: Vec<char>)
    ensures
        r@ == s@,
{
    let mut r: Vec<char> = Vec::new();
    for c in it: s.chars()
        invariant
            r@ == it.seq().take(it.index() as int),
    {
        r.push(c);
    }
    r
}

fn is_white_exec(c: char) -> (r: bool)
    ensures
        r == is_white(c),
{
    let v = c as u32;
    (9 <= v && v <= 13) || v == 32 || v == 0x85 || v == 0xA0 || v == 0x1680 || (0x2000 <= v && v
        <= 0x200A) || v == 0x2028 || v == 0x2029 || v == 0x202F || v == 0x205F || v == 0x3000
}

/// Where [`index_of`] points: into `s`, at `c`, with no `c` before it.
pub proof fn lemma_index_of(s: Seq<char>, c: char)
    ensures
        -1 <= index_of(s, c) < s.len(),
        index_of(s, c) >= 0 ==> s[index_of(s, c)] == c,
        forall|j: int|
            0 <= j < s.len() && (index_of(s, c) < 0 || j < index_of(s, c)) ==> #[trigger] s[j] != c,
    decreases s.len(),
{
    if s.len() > 0 && s[0] != c {
        lemma_index_of(s.drop_first(), c);
        assert forall|j: int|
            0 <= j < s.len() && (index_of(s, c) < 0 || j < index_of(s, c)) implies #[trigger] s[j]
            != c by {
            if j > 0 {
                assert(s[j] == s.drop_first()[j - 1]);
            }
        }
    }
}

/// The index of the first `c` in `s[from..to]`, relative to `s`.
fn find_char(s: &Vec<char>, from: usize, to: usize, c: char) -> (r: Option<usize>)
    requires
        from <= to <= s@.len(),
    ensures
        match r {
            Some(i) => from <= i < to && index_of(s@.subrange(from as int, to as int), c) == i
                - from,
            None => index_of(s@.subrange(from as int, to as int), c) < 0,
        },
{
    let ghost sub = s@.subrange(from as int, to as int);
    proof {
        lemma_index_of(sub, c);
    }
    let mut i = from;
    while i < to
        invariant
            from <= i <= to,
            to <= s@.len(),
            sub == s@.subrange(from as int, to as int),
            forall|j: int| from <= j < i ==> s@[j] != c,
            -1 <= index_of(sub, c) < sub.len(),
            index_of(sub, c) >= 0 ==> sub[index_of(sub, c)] == c,
            forall|j: int|
                0 <= j < sub.len() && (index_of(sub, c) < 0 || j < index_of(sub, c)) ==> #[trigger] sub[j]
                    != c,
        decreases to - i,
    {
        if s[i] == c {
            assert(sub[i - from] == c);
            proof {
                if index_of(sub, c) >= 0 && index_of(sub, c) < i - from {
                    assert(sub[index_of(sub, c)] == s@[from + index_of(sub, c)]);
                }
            }
            return Some(i);
        }
        i = i + 1;
    }
    proof {
        if index_of(sub, c) >= 0 {
            assert(sub[index_of(sub, c)] == s@[from + index_of(sub, c)]);
        }
    }
    None
}

proof fn lemma_trim_start_skip(s: Seq<char>, i: int)
    requires
        0 <= i <= s.len(),
        forall|j: int| 0 <= j < i ==> is_white(#[trigger] s[j]),
    ensures
        trim_start(s) == trim_start(s.skip(i)),
    decreases i,
{
    if i > 0 {
        assert forall|j: int| 0 <= j < i - 1 implies is_white(#[trigger] s.drop_first()[j]) by {
            assert(s.drop_first()[j] == s[j + 1]);
        }
        lemma_trim_start_skip(s.drop_first(), i - 1);
        assert(s.drop_first().skip(i - 1) =~= s.skip(i));
    } else {
        assert(s.skip(0) =~= s);
    }
}

proof fn lemma_trim_end_take(s: Seq<char>, k: int)
    requires
        0 <= k <= s.len(),
        forall|j: int| k <= j < s.len() ==> is_white(#[trigger] s[j]),
    ensures
        trim_end(s) == trim_end(s.take(k)),
    decreases s.len() - k,
{
    if k < s.len() {
        assert(is_white(s[s.len() - 1]));
        assert forall|j: int| k <= j < s.drop_last().len() implies is_white(
            #[trigger] s.drop_last()[j],
        ) by {
            assert(s.drop_last()[j] == s[j]);
        }
        lemma_trim_end_take(s.drop_last(), k);
        assert(s.drop_last().take(k) =~= s.take(k));
    } else {
        assert(s.take(k) =~= s);
    }
}

/// The bounds of `s[from..to]` trimmed.
fn trim_bounds(s: &Vec<char>, from: usize, to: usize) -> (r: (usize, usize))
    requires
        from <= to <= s@.len(),
    ensures
        from <= r.0 <= r.1 <= to,
        s@.subrange(r.0 as int, r.1 as int) == trim(s@.subrange(from as int, to as int)),
{
    let ghost sub = s@.subrange(from as int, to as int);
    let mut a = from;
    while a < to && is_white_exec(s[a])
        invariant
            from <= a <= to,
            to <= s@.len(),
            sub == s@.subrange(from as int, to as int),
            forall|j: int| 0 <= j < a - from ==> is_white(#[trigger] sub[j]),
        decreases to - a,
    {
        assert(sub[a - from] == s@[a as int]);
        a = a + 1;
    }
    proof {
        lemma_trim_start_skip(sub, a - from);
        assert(sub.skip(a - from) =~= s@.subrange(a as int, to as int));
        let t = s@.subrange(a as int, to as int);
        if a < to {
            assert(t[0] == s@[a as int]);
        }
        assert(trim_start(t) == t);
    }
    let ghost t = s@.subrange(a as int, to as int);
    let mut b = to;
    while b > a && is_white_exec(s[b - 1])
        invariant
            from <= a <= b <= to,
            to <= s@.len(),
            t == s@.subrange(a as int, to as int),
            forall|j: int| b - a <= j < t.len() ==> is_white(#[trigger] t[j]),
        decreases b - a,
    {
        assert(t[b - 1 - a] == s@[b - 1]);
        b = b - 1;
    }
    proof {
        lemma_trim_end_take(t, b - a);
        assert(t.take(b - a) =~= s@.subrange(a as int, b as int));
        let u = s@.subrange(a as int, b as int);
        if b > a {
            assert(u.last() == s@[b - 1]);
        }
        assert(trim_end(u) == u);
    }
    (a, b)
}

/// Whether `s[from..to]` equals `key`.
fn range_eq(s: &Vec<char>, from: usize, to: usize, key: &Vec<char>) -> (r: bool)
    requires
        from <= to <= s@.len(),
    ensures
        r == (s@.subrange(from as int, to as int) == key@),
{
    if to - from != key.len() {
        return false;
    }
    let mut i: usize = 0;
    while i < key.len()
        invariant
            from + key@.len() == to,
            to <= s@.len(),
            i <= key@.len(),
            forall|j: int| 0 <= j < i ==> s@[from + j] == key@[j],
        decreases key@.len() - i,
    {
        if s[from + i] != key[i] {
            assert(s@.subrange(from as int, to as int)[i as int] != key@[i as int]);
            return false;
        }
        i = i + 1;
    }
    assert(s@.subrange(from as int, to as int) =~= key@);
    true
}

/// The value that the line `s[from..to]` gives for `key`.
fn line_value_exec(s: &Vec<char>, from: usize, to: usize, key: &Vec<char>) -> (r: Option<String>)
    requires
        from <= to <= s@.len(),
    ensures
        match r {
            Some(v) => line_value(s@.subrange(from as int, to as int), key@) == Some(v@),
            None => line_value(s@.subrange(from as int, to as int), key@) is None,
        },
{
    let ghost line = s@.subrange(from as int, to as int);
    let eq = match find_char(s, from, to, '=') {
        None => {
            return None;
        },
        Some(i) => i,
    };
    assert(line.take(eq - from) =~= s@.subrange(from as int, eq as int));
    assert(line.skip(eq - from + 1) =~= s@.subrange(eq + 1, to as int));
    let (ka, kb) = trim_bounds(s, from, eq);
    if !range_eq(s, ka, kb, key) {
        return None;
    }
    let (va, vb) = trim_bounds(s, eq + 1, to);
    let ghost v = s@.subrange(va as int, vb as int);
    if vb - va >= 2 && s[va] == '"' && s[vb - 1] == '"' {
        assert(v[0] == s@[va as int]);
        assert(v.drop_first().last() == s@[vb - 1]);
        let mut out = String::new();
        let mut i = va + 1;
        while i < vb - 1
            invariant
                va + 1 <= i <= vb - 1,
                vb <= s@.len(),
                out@ == s@.subrange(va + 1, i as int),
            decreases vb - 1 - i,
        {
            push_char(&mut out, s[i]);
            i = i + 1;
            assert(out@ =~= s@.subrange(va + 1, i as int));
        }
        assert(v.drop_first().drop_last() =~= s@.subrange(va + 1, vb - 1));
        Some(out)
    } else {
        proof {
            if v.len() > 0 && v[0] == '"' && v.drop_first().len() > 0 {
                assert(v[0] == s@[va as int]);
                assert(v.drop_first().last() == s@[vb - 1]);
            }
        }
        None
    }
}

/// The value of the first `key = "value"` line of `content`.
pub fn metadata_string(content: &str, key: &str) -> (r: Option<String>)
    ensures
        match r {
            Some(v) => first_value(content@, key@) == Some(v@),
            None => first_value(content@, key@) is None,
        },
{
    let text = chars_of(content);
    let key_chars = chars_of(key);
    let mut start: usize = 0;
    assert(text@.skip(0) =~= text@);
    while start < text.len()
        invariant
            start <= text@.len(),
            key_chars@ == key@,
            text@ == content@,
            first_value(content@, key@) == first_value(text@.skip(start as int), key@),
        decreases text@.len() - start,
    {
        let ghost rest = text@.skip(start as int);
        assert(text@.subrange(start as int, text@.len() as int) =~= rest);
        match find_char(&text, start, text.len(), '\n') {
            None => {
                return line_value_exec(&text, start, text.len(), &key_chars);
            },
            Some(nl) => {
                let mut end = nl;
                if end > start && text[end - 1] == '\r' {
                    end = end - 1;
                }
                assert(strip_cr(rest.take(nl - start)) =~= text@.subrange(start as int, end as int));
                if let Some(v) = line_value_exec(&text, start, end, &key_chars) {
                    return Some(v);
                }
                assert(rest.skip(nl - start + 1) =~= text@.skip(nl + 1));
                start = nl + 1;
            },
        }
    }
    assert(text@.skip(start as int) =~= Seq::<char>::empty());
    None
}

} // verus!
