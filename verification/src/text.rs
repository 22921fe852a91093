use vstd::prelude::*;

verus! {

/// Unicode `White_Space`: the characters that `str::trim`, `str::trim_end`
/// and `char::is_whitespace` treat as whitespace.
pub open spec fn is_white_space(c: char) -> bool {
    let u = c as u32;
    ||| 0x09 <= u <= 0x0d
    ||| u == 0x20
    ||| u == 0x85
    ||| u == 0xa0
    ||| u == 0x1680
    ||| 0x2000 <= u <= 0x200a
    ||| u == 0x2028
    ||| u == 0x2029
    ||| u == 0x202f
    ||| u == 0x205f
    ||| u == 0x3000
}

/// `s` without its trailing whitespace.
pub open spec fn trim_end(s: Seq<char>) -> Seq<char>
    decreases s.len(),
{
    if s.len() > 0 && is_white_space(s.last()) {
        trim_end(s.drop_last())
    } else {
        s
    }
}

/// `s` without its leading whitespace.
pub open spec fn trim_start(s: Seq<char>) -> Seq<char>
    decreases s.len(),
{
    if s.len() > 0 && is_white_space(s[0]) {
        trim_start(s.drop_first())
    } else {
        s
    }
}

/// `s` without leading and trailing whitespace.
pub open spec fn trim(s: Seq<char>) -> Seq<char> {
    trim_start(trim_end(s))
}

/// `s` begins with `p`.
pub open spec fn starts_with(s: Seq<char>, p: Seq<char>) -> bool {
    p.len() <= s.len() && s.take(p.len() as int) == p
}

/// `p` occurs in `s` as a contiguous run of characters.
pub open spec fn contains_seq(s: Seq<char>, p: Seq<char>) -> bool {
    exists|i: int| 0 <= i <= s.len() - p.len() && #[trigger] s.subrange(i, i + p.len()) == p
}

/// Whether `c` is a whitespace character.
pub fn char_is_white_space(c: char) -> (b: bool)
    ensures
        b == is_white_space(c),
{
    let u = c as u32;
    (0x09 <= u && u <= 0x0d) || u == 0x20 || u == 0x85 || u == 0xa0 || u == 0x1680 || (0x2000
        <= u && u <= 0x200a) || u == 0x2028 || u == 0x2029 || u == 0x202f || u == 0x205f || u
        == 0x3000
}

/// The characters of `s`, in order.
pub fn chars_of(s: &str) -> (out: Vec<char>)
    ensures
        out@ == s@,
{
    let mut out: Vec<char> = Vec::new();
    for c in it: s.chars()
        invariant
            out@ == it.seq().take(it.index() as int),
    {
        out.push(c);
    }
    out
}

/// Appends `c` to `s` by calling std's `String::push`. Trusted, not proved:
/// the contract claims what std documents, that the character is added at
/// the end and nothing else changes.
#[verifier::external_body]
pub fn push_char(s: &mut String, c: char)
    ensures
        final(s)@ == old(s)@.push(c),
{
    s.push(c);
}

/// Appends the characters `cs[lo..hi]` to `s`.
pub fn push_chars(s: &mut String, cs: &Vec<char>, lo: usize, hi: usize)
    requires
        lo <= hi <= cs@.len(),
    ensures
        final(s)@ == old(s)@ + cs@.subrange(lo as int, hi as int),
{
    let mut i = lo;
    while i < hi
        invariant
            lo <= i <= hi <= cs@.len(),
            s@ == old(s)@ + cs@.subrange(lo as int, i as int),
        decreases hi - i,
    {
        push_char(s, cs[i]);
        i += 1;
        assert(cs@.subrange(lo as int, i as int) == cs@.subrange(lo as int, i - 1).push(
            cs@[i - 1],
        ));
    }
}

/// Appends the characters of `t` to `s`.
pub fn push_str(s: &mut String, t: &str)
    ensures
        final(s)@ == old(s)@ + t@,
{
    let cs = chars_of(t);
    push_chars(s, &cs, 0, cs.len());
    assert(cs@.subrange(0, cs@.len() as int) == cs@);
}

/// A new string holding the characters `cs[lo..hi]`.
pub fn string_from_chars(cs: &Vec<char>, lo: usize, hi: usize) -> (s: String)
    requires
        lo <= hi <= cs@.len(),
    ensures
        s@ == cs@.subrange(lo as int, hi as int),
{
    let mut s = String::new();
    push_chars(&mut s, cs, lo, hi);
    s
}

/// Whether `cs` holds exactly the characters of `t`.
pub fn chars_equal(cs: &Vec<char>, t: &str) -> (b: bool)
    ensures
        b == (cs@ == t@),
{
    let ts = chars_of(t);
    if cs.len() != ts.len() {
        return false;
    }
    let mut i: usize = 0;
    while i < cs.len()
        invariant
            cs@.len() == ts@.len(),
            ts@ == t@,
            i <= cs@.len(),
            forall|j: int| 0 <= j < i ==> cs@[j] == ts@[j],
        decreases cs.len() - i,
    {
        if cs[i] != ts[i] {
            return false;
        }
        i += 1;
    }
    assert(cs@ == ts@);
    true
}

/// Whether `cs` begins with the characters of `p`.
pub fn chars_start_with(cs: &Vec<char>, p: &str) -> (b: bool)
    ensures
        b == starts_with(cs@, p@),
{
    let ps = chars_of(p);
    if ps.len() > cs.len() {
        return false;
    }
    let mut i: usize = 0;
    while i < ps.len()
        invariant
            ps@.len() <= cs@.len(),
            ps@ == p@,
            i <= ps@.len(),
            forall|j: int| 0 <= j < i ==> cs@[j] == ps@[j],
        decreases ps.len() - i,
    {
        if cs[i] != ps[i] {
            assert(cs@.take(ps@.len() as int)[i as int] != ps@[i as int]);
            return false;
        }
        i += 1;
    }
    assert(cs@.take(ps@.len() as int) == ps@);
    true
}

/// The length of `cs` once its trailing whitespace is removed.
pub fn trim_end_len(cs: &Vec<char>) -> (n: usize)
    ensures
        n <= cs@.len(),
        cs@.take(n as int) == trim_end(cs@),
{
    let mut n = cs.len();
    assert(cs@.take(n as int) == cs@);
    while n > 0 && char_is_white_space(cs[n - 1])
        invariant
            n <= cs@.len(),
            trim_end(cs@.take(n as int)) == trim_end(cs@),
        decreases n,
    {
        assert(cs@.take(n as int).drop_last() == cs@.take(n - 1));
        n -= 1;
    }
    n
}

/// `s` with its trailing whitespace removed (`str::trim_end`).
pub fn trimmed_end(s: &str) -> (t: String)
    ensures
        t@ == trim_end(s@),
{
    let cs = chars_of(s);
    let n = trim_end_len(&cs);
    assert(cs@.subrange(0, n as int) == cs@.take(n as int));
    string_from_chars(&cs, 0, n)
}


/// Every character of `s` is whitespace.
pub open spec fn is_blank(s: Seq<char>) -> bool {
    forall|i: int| 0 <= i < s.len() ==> is_white_space(#[trigger] s[i])
}

proof fn lemma_trim_start_empty(t: Seq<char>)
    ensures
        trim_start(t).len() == 0 <==> is_blank(t),
    decreases t.len(),
{
    if t.len() > 0 {
        lemma_trim_start_empty(t.drop_first());
        if is_white_space(t[0]) {
            assert(is_blank(t) <==> is_blank(t.drop_first())) by {
                if is_blank(t.drop_first()) {
                    assert forall|i: int| 0 <= i < t.len() implies is_white_space(#[trigger] t[i]) by {
                        if i > 0 {
                            assert(t[i] == t.drop_first()[i - 1]);
                        }
                    }
                }
                if is_blank(t) {
                    assert forall|i: int| 0 <= i < t.drop_first().len() implies is_white_space(
                        #[trigger] t.drop_first()[i],
                    ) by {
                        assert(t.drop_first()[i] == t[i + 1]);
                    }
                }
            }
        } else {
            assert(!is_white_space(t[0]));
        }
    }
}

proof fn lemma_trim_end_shape(s: Seq<char>)
    ensures
        trim_end(s).len() <= s.len(),
        trim_end(s) == s.take(trim_end(s).len() as int),
        forall|i: int| trim_end(s).len() <= i < s.len() ==> is_white_space(#[trigger] s[i]),
        trim_end(s).len() > 0 ==> !is_white_space(s[trim_end(s).len() - 1]),
    decreases s.len(),
{
    if s.len() > 0 && is_white_space(s.last()) {
        lemma_trim_end_shape(s.drop_last());
        let k = trim_end(s).len() as int;
        assert(s.drop_last().take(k) == s.take(k));
        assert forall|i: int| k <= i < s.len() implies is_white_space(#[trigger] s[i]) by {
            if i < s.len() - 1 {
                assert(s[i] == s.drop_last()[i]);
            }
        }
    } else {
        assert(s.take(s.len() as int) == s);
    }
}

/// `s.trim()` is empty exactly when every character of `s` is whitespace.
pub proof fn lemma_trim_empty_iff_blank(s: Seq<char>)
    ensures
        trim(s).len() == 0 <==> is_blank(s),
{
    lemma_trim_end_shape(s);
    let t = trim_end(s);
    lemma_trim_start_empty(t);
    if is_blank(s) {
        assert forall|i: int| 0 <= i < t.len() implies is_white_space(#[trigger] t[i]) by {
            assert(t[i] == s[i]);
        }
    }
    if is_blank(t) {
        if t.len() > 0 {
            assert(is_white_space(t[t.len() - 1]));
            assert(t[t.len() - 1] == s[t.len() - 1]);
        }
        assert forall|i: int| 0 <= i < s.len() implies is_white_space(#[trigger] s[i]) by {}
    }
}

/// Whether every character of `cs` is whitespace.
pub fn chars_blank(cs: &Vec<char>) -> (b: bool)
    ensures
        b == is_blank(cs@),
{
    let mut i: usize = 0;
    while i < cs.len()
        invariant
            i <= cs@.len(),
            forall|j: int| 0 <= j < i ==> is_white_space(#[trigger] cs@[j]),
        decreases cs.len() - i,
    {
        if !char_is_white_space(cs[i]) {
            return false;
        }
        i += 1;
    }
    true
}

/// Whether `needle` occurs in `hay`.
pub fn chars_contain(hay: &Vec<char>, needle: &Vec<char>) -> (b: bool)
    ensures
        b == contains_seq(hay@, needle@),
{
    if needle.len() > hay.len() {
        return false;
    }
    let hay_len = hay.len();
    let last = hay_len - needle.len();
    let mut i: usize = 0;
    loop
        invariant
            hay_len == hay@.len(),
            needle@.len() <= hay@.len(),
            last == hay@.len() - needle@.len(),
            i <= last,
            forall|k: int| 0 <= k < i ==> #[trigger] hay@.subrange(k, k + needle@.len()) != needle@,
        decreases last - i,
    {
        let mut j: usize = 0;
        let mut same = true;
        while j < needle.len()
            invariant
                hay_len == hay@.len(),
                needle@.len() <= hay@.len(),
                i <= last,
                last == hay@.len() - needle@.len(),
                j <= needle@.len(),
                same == (forall|m: int| 0 <= m < j ==> hay@[i + m] == needle@[m]),
            decreases needle.len() - j,
        {
            assert(i + j < hay_len);
            if hay[i + j] != needle[j] {
                same = false;
            }
            j += 1;
        }
        if same {
            assert(hay@.subrange(i as int, i + needle@.len()) == needle@);
            return true;
        }
        assert(hay@.subrange(i as int, i + needle@.len()) != needle@) by {
            let m = choose|m: int| 0 <= m < needle@.len() && hay@[i + m] != needle@[m];
            assert(hay@.subrange(i as int, i + needle@.len())[m] != needle@[m]);
        }
        if i == last {
            return false;
        }
        i += 1;
    }
}

} // verus!
