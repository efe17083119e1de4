//! Comparison keys for benchmark dashboards, inferred from Criterion's
//! slash-separated benchmark ids.
use vstd::prelude::*;
use vstd::string::*;

verus! {

/// The parts finished so far and the part being read, after reading `id`.
pub open spec fn split_state(id: Seq<char>) -> (Seq<Seq<char>>, Seq<char>)
    decreases id.len(),
{
    if id.len() == 0 {
        (Seq::empty(), Seq::empty())
    } else {
        let (parts, current) = split_state(id.drop_last());
        if id.last() == '/' {
            (
                if current.len() > 0 {
                    parts.push(current)
                } else {
                    parts
                },
                Seq::empty(),
            )
        } else {
            (parts, current.push(id.last()))
        }
    }
}

/// The nonempty slash-separated parts of `id`, in order.
pub open spec fn id_parts(id: Seq<char>) -> Seq<Seq<char>> {
    let (parts, current) = split_state(id);
    if current.len() > 0 {
        parts.push(current)
    } else {
        parts
    }
}

/// The parts joined by slashes.
pub open spec fn join_parts(parts: Seq<Seq<char>>) -> Seq<char>
    decreases parts.len(),
{
    if parts.len() == 0 {
        Seq::empty()
    } else if parts.len() == 1 {
        parts[0]
    } else {
        join_parts(parts.drop_last()) + seq!['/'] + parts.last()
    }
}

pub open spec fn is_digit(c: char) -> bool {
    '0' <= c && c <= '9'
}

pub open spec fn all_digits(s: Seq<char>) -> bool {
    forall|i: int| 0 <= i < s.len() ==> is_digit(#[trigger] s[i])
}

/// `Digit+ | Digit+ '.' Digit* | Digit* '.' Digit+`.
pub open spec fn mantissa(m: Seq<char>) -> bool {
    ||| m.len() > 0 && all_digits(m)
    ||| exists|d: int|
        0 <= d < m.len() && m[d] == '.' && m.len() >= 2 && all_digits(m.take(d)) && all_digits(
            #[trigger] m.skip(d + 1),
        )
}

/// `s` without a leading `+` or `-`.
pub open spec fn unsigned(s: Seq<char>) -> Seq<char> {
    if s.len() > 0 && (s[0] == '+' || s[0] == '-') {
        s.skip(1)
    } else {
        s
    }
}

/// `Sign? Digit+`.
pub open spec fn exponent(x: Seq<char>) -> bool {
    unsigned(x).len() > 0 && all_digits(unsigned(x))
}

/// `Mantissa ('e' Exponent)?`, the exponent marker in either case.
pub open spec fn decimal_number(t: Seq<char>) -> bool {
    ||| mantissa(t)
    ||| exists|k: int|
        0 <= k < t.len() && (t[k] == 'e' || t[k] == 'E') && mantissa(t.take(k)) && exponent(#[trigger] t.skip(k + 1))
}

/// `c` in lower case, for ASCII letters.
pub open spec fn ascii_lower(c: char) -> char {
    if 'A' <= c && c <= 'Z' {
        ((c as u32) + 32) as char
    } else {
        c
    }
}

/// `s` spells `word` ignoring ASCII case.
pub open spec fn spells(s: Seq<char>, word: Seq<char>) -> bool {
    s.len() == word.len() && forall|i: int| 0 <= i < s.len() ==> ascii_lower(#[trigger] s[i]) == word[i]
}

/// The text Rust's floating-point `FromStr` accepts:
/// `Sign? ('inf' | 'infinity' | 'nan' | Number)`, the words in any case.
pub open spec fn scale_literal(s: Seq<char>) -> bool {
    let t = unsigned(s);
    ||| spells(t, seq!['i', 'n', 'f'])
    ||| spells(t, seq!['i', 'n', 'f', 'i', 'n', 'i', 't', 'y'])
    ||| spells(t, seq!['n', 'a', 'n'])
    ||| decimal_number(t)
}

pub open spec fn default_word() -> Seq<char> {
    seq!['d', 'e', 'f', 'a', 'u', 'l', 't']
}

/// The comparison key of a benchmark id: `family[/fixture]/candidate/scale`
/// when the final part is a number, otherwise `family/candidate`; shapes
/// that fit neither fill in `default`.
pub open spec fn dimensions(id: Seq<char>) -> (Seq<char>, Seq<char>, Seq<char>) {
    let parts = id_parts(id);
    let n = parts.len();
    if n == 0 {
        (Seq::empty(), Seq::empty(), default_word())
    } else if n == 1 {
        (parts[0], default_word(), default_word())
    } else if n == 2 && scale_literal(parts[1]) {
        (parts[0], default_word(), parts[1])
    } else if scale_literal(parts[n - 1]) {
        (join_parts(parts.take(n - 2)), parts[n - 2], parts[n - 1])
    } else {
        (join_parts(parts.take(n - 1)), parts[n - 1], default_word())
    }
}

/// The characters of a string, in order.
fn chars_of(s: &str) -> (r: Vec<char>)
    ensures
        r@ == s@,
{
    let n = s.unicode_len();
    let mut out: Vec<char> = Vec::new();
    let mut i: usize = 0;
    while i < n
        invariant
            n == s@.len(),
            i <= n,
            out@ == s@.take(i as int),
        decreases n - i,
    {
        out.push(s.get_char(i));
        proof {
            assert(out@ =~= s@.take(i + 1));
        }
        i = i + 1;
    }
    proof {
        assert(s@.take(n as int) =~= s@);
    }
    out
}

/// A string holding `chars`.
fn string_of(chars: &Vec<char>) -> (r: String)
    ensures
        r@ == chars@,
{
    let mut out = String::new();
    let mut i: usize = 0;
    while i < chars.len()
        invariant
            i <= chars@.len(),
            out@ == chars@.take(i as int),
        decreases chars@.len() - i,
    {
        crate::partition::push_char(&mut out, chars[i]);
        proof {
            assert(out@ =~= chars@.take(i + 1));
        }
        i = i + 1;
    }
    proof {
        assert(chars@.take(chars@.len() as int) =~= chars@);
    }
    out
}

fn default_string() -> (r: String)
    ensures
        r@ == default_word(),
{
    let r = String::from_str("default");
    proof {
        reveal_strlit("default");
    }
    r
}

/// The nonempty slash-separated parts of `id`.
fn split_id(id: &Vec<char>) -> (r: Vec<Vec<char>>)
    ensures
        r@.len() == id_parts(id@).len(),
        forall|i: int| 0 <= i < r@.len() ==> #[trigger] r@[i]@ == id_parts(id@)[i],
{
    let mut parts: Vec<Vec<char>> = Vec::new();
    let mut current: Vec<char> = Vec::new();
    let mut i: usize = 0;
    proof {
        assert(id@.take(0) =~= Seq::<char>::empty());
    }
    while i < id.len()
        invariant
            i <= id@.len(),
            parts@.len() == split_state(id@.take(i as int)).0.len(),
            forall|k: int| 0 <= k < parts@.len() ==> #[trigger] parts@[k]@ == split_state(id@.take(i as int)).0[k],
            current@ == split_state(id@.take(i as int)).1,
        decreases id@.len() - i,
    {
        proof {
            assert(id@.take(i + 1).drop_last() =~= id@.take(i as int));
        }
        let c = id[i];
        if c == '/' {
            if current.len() > 0 {
                let finished = current;
                parts.push(finished);
            }
            current = Vec::new();
        } else {
            current.push(c);
        }
        i = i + 1;
    }
    if current.len() > 0 {
        parts.push(current);
    }
    proof {
        assert(id@.take(id@.len() as int) =~= id@);
    }
    parts
}

/// The parts `0..n` joined by slashes.
fn join_first(parts: &Vec<Vec<char>>, n: usize) -> (r: Vec<char>)
    requires
        n <= parts@.len(),
    ensures
        r@ == join_parts(parts@.take(n as int).map_values(|part: Vec<char>| part@)),
{
    let mut out: Vec<char> = Vec::new();
    let mut k: usize = 0;
    proof {
        assert(parts@.take(0).map_values(|part: Vec<char>| part@) =~= Seq::<Seq<char>>::empty());
    }
    while k < n
        invariant
            k <= n <= parts@.len(),
            out@ == join_parts(parts@.take(k as int).map_values(|part: Vec<char>| part@)),
        decreases n - k,
    {
        let ghost before = parts@.take(k as int).map_values(|part: Vec<char>| part@);
        let ghost after = parts@.take(k + 1).map_values(|part: Vec<char>| part@);
        proof {
            assert(after.drop_last() =~= before);
            assert(after.last() == parts@[k as int]@);
        }
        if k > 0 {
            out.push('/');
        }
        let part = &parts[k];
        let mut j: usize = 0;
        let ghost start = out@;
        while j < part.len()
            invariant
                j <= part@.len(),
                out@ == start + part@.take(j as int),
            decreases part@.len() - j,
        {
            out.push(part[j]);
            proof {
                assert(out@ =~= start + part@.take(j + 1));
            }
            j = j + 1;
        }
        proof {
            assert(part@.take(part@.len() as int) =~= part@);
            if k == 0 {
                assert(after.len() == 1);
                assert(out@ =~= after[0]);
            } else {
                assert(out@ =~= join_parts(before) + seq!['/'] + after.last());
            }
        }
        k = k + 1;
    }
    out
}

/// The first position in `lo..hi` holding `a` or `b`, or `hi`.
fn first_of(s: &Vec<char>, lo: usize, hi: usize, a: char, b: char) -> (r: usize)
    requires
        lo <= hi <= s@.len(),
    ensures
        lo <= r <= hi,
        forall|i: int| lo <= i < r ==> s@[i] != a && s@[i] != b,
        r < hi ==> s@[r as int] == a || s@[r as int] == b,
{
    let mut i = lo;
    while i < hi && s[i] != a && s[i] != b
        invariant
            lo <= i <= hi <= s@.len(),
            forall|k: int| lo <= k < i ==> s@[k] != a && s@[k] != b,
        decreases hi - i,
    {
        i = i + 1;
    }
    i
}

/// Every character in `lo..hi` is a decimal digit.
fn digits_between(s: &Vec<char>, lo: usize, hi: usize) -> (r: bool)
    requires
        lo <= hi <= s@.len(),
    ensures
        r == all_digits(s@.subrange(lo as int, hi as int)),
{
    let mut i = lo;
    while i < hi
        invariant
            lo <= i <= hi <= s@.len(),
            forall|k: int| lo <= k < i ==> is_digit(s@[k]),
        decreases hi - i,
    {
        let c = s[i];
        if !('0' <= c && c <= '9') {
            proof {
                assert(!is_digit(s@.subrange(lo as int, hi as int)[i - lo]));
            }
            return false;
        }
        i = i + 1;
    }
    proof {
        assert forall|k: int| 0 <= k < hi - lo implies is_digit(#[trigger] s@.subrange(lo as int, hi as int)[k]) by {
            assert(s@.subrange(lo as int, hi as int)[k] == s@[lo + k]);
        }
    }
    true
}

/// `lo..hi` holds a mantissa.
fn mantissa_between(s: &Vec<char>, lo: usize, hi: usize) -> (r: bool)
    requires
        lo <= hi <= s@.len(),
    ensures
        r == mantissa(s@.subrange(lo as int, hi as int)),
{
    let ghost m = s@.subrange(lo as int, hi as int);
    let dot = first_of(s, lo, hi, '.', '.');
    if dot == hi {
        proof {
            if exists|d: int|
                0 <= d < m.len() && m[d] == '.' && m.len() >= 2 && all_digits(m.take(d)) && all_digits(
                    #[trigger] m.skip(d + 1),
                ) {
                let d = choose|d: int|
                    0 <= d < m.len() && m[d] == '.' && m.len() >= 2 && all_digits(m.take(d)) && all_digits(
                        #[trigger] m.skip(d + 1),
                    );
                assert(s@[lo + d] == '.');
            }
        }
        hi > lo && digits_between(s, lo, hi)
    } else {
        let before = digits_between(s, lo, dot);
        let after = digits_between(s, dot + 1, hi);
        proof {
            let d = dot - lo;
            assert(m.take(d) =~= s@.subrange(lo as int, dot as int));
            assert(m.skip(d + 1) =~= s@.subrange(dot + 1, hi as int));
            assert(m[d] == '.');
            assert(!is_digit(m[d]));
            if exists|e: int|
                0 <= e < m.len() && m[e] == '.' && m.len() >= 2 && all_digits(m.take(e)) && all_digits(
                    #[trigger] m.skip(e + 1),
                ) {
                let e = choose|e: int|
                    0 <= e < m.len() && m[e] == '.' && m.len() >= 2 && all_digits(m.take(e)) && all_digits(
                        #[trigger] m.skip(e + 1),
                    );
                if e > d {
                    assert(!is_digit(m.take(e)[d]));
                } else if e < d {
                    assert(s@[lo + e] == '.');
                }
            }
        }
        before && after && hi - lo >= 2
    }
}

/// `lo..hi` holds an exponent.
fn exponent_between(s: &Vec<char>, lo: usize, hi: usize) -> (r: bool)
    requires
        lo <= hi <= s@.len(),
    ensures
        r == exponent(s@.subrange(lo as int, hi as int)),
{
    let ghost x = s@.subrange(lo as int, hi as int);
    let start = if lo < hi && (s[lo] == '+' || s[lo] == '-') {
        lo + 1
    } else {
        lo
    };
    proof {
        assert(unsigned(x) =~= s@.subrange(start as int, hi as int));
    }
    start < hi && digits_between(s, start, hi)
}

/// `lo..hi` spells `word`, ignoring ASCII case.
fn spells_between(s: &Vec<char>, lo: usize, hi: usize, word: &[char]) -> (r: bool)
    requires
        lo <= hi <= s@.len(),
        forall|i: int| 0 <= i < word@.len() ==> 'a' <= #[trigger] word@[i] && word@[i] <= 'z',
    ensures
        r == spells(s@.subrange(lo as int, hi as int), word@),
{
    if hi - lo != word.len() {
        return false;
    }
    let mut i: usize = 0;
    while i < word.len()
        invariant
            lo <= hi <= s@.len(),
            hi - lo == word@.len(),
            i <= word@.len(),
            forall|k: int| 0 <= k < word@.len() ==> 'a' <= #[trigger] word@[k] && word@[k] <= 'z',
            forall|k: int| 0 <= k < i ==> ascii_lower(s@[lo + k]) == word@[k],
        decreases word@.len() - i,
    {
        let c = s[lo + i];
        let w = word[i];
        let matches = c == w || ('A' <= c && c <= 'Z' && (c as u32) + 32 == w as u32);
        proof {
            assert(w == word@[i as int]);
            assert('a' <= w && w <= 'z');
            if 'A' <= c && c <= 'Z' {
                assert(c != w);
            }
        }
        if !matches {
            proof {
                assert(ascii_lower(s@.subrange(lo as int, hi as int)[i as int]) != word@[i as int]);
            }
            return false;
        }
        i = i + 1;
    }
    proof {
        assert forall|k: int| 0 <= k < hi - lo implies ascii_lower(
            #[trigger] s@.subrange(lo as int, hi as int)[k],
        ) == word@[k] by {
            assert(s@.subrange(lo as int, hi as int)[k] == s@[lo + k]);
        }
    }
    true
}

/// `lo..hi` holds a decimal number.
fn decimal_between(value: &Vec<char>, start: usize, n: usize) -> (r: bool)
    requires
        start <= n <= value@.len(),
    ensures
        r == decimal_number(value@.subrange(start as int, n as int)),
{
    let ghost t = value@.subrange(start as int, n as int);
    let marker = first_of(value, start, n, 'e', 'E');
    if marker == n {
        let r = mantissa_between(value, start, n);
        proof {
            if exists|k: int|
                0 <= k < t.len() && (t[k] == 'e' || t[k] == 'E') && mantissa(t.take(k)) && exponent(
                    #[trigger] t.skip(k + 1),
                ) {
                let k = choose|k: int|
                    0 <= k < t.len() && (t[k] == 'e' || t[k] == 'E') && mantissa(t.take(k)) && exponent(
                        #[trigger] t.skip(k + 1),
                    );
                assert(value@[start + k] == t[k]);
            }
        }
        r
    } else {
        let whole = mantissa_between(value, start, n);
        let head = mantissa_between(value, start, marker);
        let tail = exponent_between(value, marker + 1, n);
        proof {
            let k = marker - start;
            assert(t.take(k) =~= value@.subrange(start as int, marker as int));
            assert(t.skip(k + 1) =~= value@.subrange(marker + 1, n as int));
            assert(t[k] == 'e' || t[k] == 'E');
            lemma_mantissa_has_no_marker(t, k);
            if exists|e: int|
                0 <= e < t.len() && (t[e] == 'e' || t[e] == 'E') && mantissa(t.take(e)) && exponent(
                    #[trigger] t.skip(e + 1),
                ) {
                let e = choose|e: int|
                    0 <= e < t.len() && (t[e] == 'e' || t[e] == 'E') && mantissa(t.take(e)) && exponent(
                        #[trigger] t.skip(e + 1),
                    );
                if e > k {
                    lemma_mantissa_has_no_marker(t.take(e), k);
                } else if e < k {
                    assert(value@[start + e] == t[e]);
                }
            }
        }
        whole || (head && tail)
    }
}

/// Whether `value` reads as a number: the text Rust's floating-point
/// `FromStr` accepts.
fn is_scale(value: &Vec<char>) -> (r: bool)
    ensures
        r == scale_literal(value@),
{
    let n = value.len();
    let start = if n > 0 && (value[0] == '+' || value[0] == '-') {
        1
    } else {
        0
    };
    proof {
        assert(unsigned(value@) =~= value@.subrange(start as int, n as int));
    }
    let inf = ['i', 'n', 'f'];
    let infinity = ['i', 'n', 'f', 'i', 'n', 'i', 't', 'y'];
    let nan = ['n', 'a', 'n'];
    proof {
        assert(inf@ =~= seq!['i', 'n', 'f']);
        assert(infinity@ =~= seq!['i', 'n', 'f', 'i', 'n', 'i', 't', 'y']);
        assert(nan@ =~= seq!['n', 'a', 'n']);
    }
    let word = spells_between(value, start, n, &inf) || spells_between(value, start, n, &infinity)
        || spells_between(value, start, n, &nan);
    word || decimal_between(value, start, n)
}

/// A mantissa holds only digits and dots.
proof fn lemma_mantissa_has_no_marker(m: Seq<char>, k: int)
    requires
        0 <= k < m.len(),
        m[k] == 'e' || m[k] == 'E',
    ensures
        !mantissa(m),
{
    if m.len() > 0 && all_digits(m) {
        assert(is_digit(m[k]));
    }
    if exists|d: int|
        0 <= d < m.len() && m[d] == '.' && m.len() >= 2 && all_digits(m.take(d)) && all_digits(
            #[trigger] m.skip(d + 1),
        ) {
        let d = choose|d: int|
            0 <= d < m.len() && m[d] == '.' && m.len() >= 2 && all_digits(m.take(d)) && all_digits(
                #[trigger] m.skip(d + 1),
            );
        if k < d {
            assert(is_digit(m.take(d)[k]));
        } else {
            assert(is_digit(m.skip(d + 1)[k - d - 1]));
        }
    }
}

/// Infer a comparison key from Criterion's slash-separated benchmark id.
///
/// The zero-config convention is `family[/fixture]/candidate/scale` when the
/// final segment is numeric, otherwise `family/candidate`. Unknown shapes
/// still remain visible; they simply form smaller groups.
pub fn infer_dimensions(id: &str) -> (r: (String, String, String))
    ensures
        (r.0@, r.1@, r.2@) == dimensions(id@),
{
    let chars = chars_of(id);
    let parts = split_id(&chars);
    let ghost spec_parts = id_parts(id@);
    let ghost views = parts@.map_values(|part: Vec<char>| part@);
    proof {
        assert(views =~= spec_parts);
    }
    let n = parts.len();
    if n == 0 {
        (String::new(), String::new(), default_string())
    } else if n == 1 {
        (string_of(&parts[0]), default_string(), default_string())
    } else if n == 2 && is_scale(&parts[1]) {
        (string_of(&parts[0]), default_string(), string_of(&parts[1]))
    } else if is_scale(&parts[n - 1]) {
        let family = join_first(&parts, n - 2);
        proof {
            assert(parts@.take(n - 2).map_values(|part: Vec<char>| part@) =~= spec_parts.take(n - 2));
        }
        (string_of(&family), string_of(&parts[n - 2]), string_of(&parts[n - 1]))
    } else {
        let family = join_first(&parts, n - 1);
        proof {
            assert(parts@.take(n - 1).map_values(|part: Vec<char>| part@) =~= spec_parts.take(n - 1));
        }
        (string_of(&family), string_of(&parts[n - 1]), default_string())
    }
}

/// ASCII letters and digits.
pub open spec fn is_ascii_alphanumeric(c: char) -> bool {
    ('0' <= c && c <= '9') || ('a' <= c && c <= 'z') || ('A' <= c && c <= 'Z')
}

/// `c` where it is safe in a file name, otherwise `_`.
pub open spec fn file_safe(c: char) -> char {
    if is_ascii_alphanumeric(c) || c == '-' || c == '_' || c == '.' {
        c
    } else {
        '_'
    }
}

/// A file name for a run id: every character outside ASCII letters,
/// digits, `-`, `_` and `.` becomes `_`.
pub fn sanitize(value: &str) -> (r: String)
    ensures
        r@ == value@.map_values(|c: char| file_safe(c)),
{
    let chars = chars_of(value);
    let mut out: Vec<char> = Vec::new();
    let mut i: usize = 0;
    while i < chars.len()
        invariant
            i <= chars@.len(),
            out@ == chars@.take(i as int).map_values(|c: char| file_safe(c)),
        decreases chars@.len() - i,
    {
        let c = chars[i];
        let safe = if ('0' <= c && c <= '9') || ('a' <= c && c <= 'z') || ('A' <= c && c <= 'Z') || c == '-'
            || c == '_' || c == '.' {
            c
        } else {
            '_'
        };
        out.push(safe);
        proof {
            assert(out@ =~= chars@.take(i + 1).map_values(|c: char| file_safe(c)));
        }
        i = i + 1;
    }
    proof {
        assert(chars@.take(chars@.len() as int) =~= chars@);
    }
    string_of(&out)
}

/// Every part of an id is a nonempty run of characters without a slash.
proof fn lemma_split_state_segments(id: Seq<char>)
    ensures
        forall|i: int|
            0 <= i < split_state(id).0.len() ==> (#[trigger] split_state(id).0[i]).len() > 0 && !split_state(
                id,
            ).0[i].contains('/'),
        !split_state(id).1.contains('/'),
    decreases id.len(),
{
    if id.len() > 0 {
        lemma_split_state_segments(id.drop_last());
        let (parts, current) = split_state(id.drop_last());
        if id.last() != '/' {
            assert forall|j: int| 0 <= j < current.push(id.last()).len() implies current.push(id.last())[j]
                != '/' by {
                if j < current.len() {
                    assert(current.push(id.last())[j] == current[j]);
                    assert(!current.contains('/'));
                }
            }
        }
    }
}

/// The parts of an id are nonempty and hold no slash.
pub proof fn lemma_id_parts_segments(id: Seq<char>)
    ensures
        forall|i: int|
            0 <= i < id_parts(id).len() ==> (#[trigger] id_parts(id)[i]).len() > 0 && !id_parts(id)[i].contains(
                '/',
            ),
{
    lemma_split_state_segments(id);
}

/// The comparison key loses no part of the id: when the last part is not a
/// scale, the family and the candidate joined by a slash give back every
/// nonempty part of the id, and the candidate is the last part; when it is
/// a scale after at least two parts, family, candidate and scale joined by
/// slashes give back every part, with the candidate and the scale the last
/// two parts; a single part is the family; an id with no part gives an
/// empty family and candidate.
pub proof fn lemma_dimensions_rejoin(id: Seq<char>)
    ensures
        ({
            let parts = id_parts(id);
            let n = parts.len();
            let d = dimensions(id);
            &&& n == 0 ==> d.0 == Seq::<char>::empty() && d.1 == Seq::<char>::empty() && d.2 == default_word()
            &&& n == 1 ==> d.0 == join_parts(parts) && d.1 == default_word() && d.2 == default_word()
            &&& n >= 2 && !scale_literal(parts[n - 1]) ==> d.0 + seq!['/'] + d.1 == join_parts(parts) && d.1
                == parts[n - 1] && d.2 == default_word()
            &&& n == 2 && scale_literal(parts[1]) ==> d.0 == parts[0] && d.1 == default_word() && d.2 == parts[1]
            &&& n >= 3 && scale_literal(parts[n - 1]) ==> d.0 + seq!['/'] + d.1 + seq!['/'] + d.2 == join_parts(
                parts,
            ) && d.1 == parts[n - 2] && d.2 == parts[n - 1]
        }),
{
    let parts = id_parts(id);
    let n = parts.len();
    if n >= 2 {
        assert(parts.take(n - 1) =~= parts.drop_last());
        if n >= 3 {
            let front = parts.take(n - 1);
            assert(front.take(n - 2) =~= front.drop_last());
            assert(parts.take(n - 2) =~= front.drop_last());
            assert(front.last() == parts[n - 2]);
            assert(join_parts(front) == join_parts(parts.take(n - 2)) + seq!['/'] + parts[n - 2]);
            assert(join_parts(parts) == join_parts(front) + seq!['/'] + parts[n - 1]);
            assert(join_parts(parts.take(n - 2)) + seq!['/'] + parts[n - 2] + seq!['/'] + parts[n - 1] =~= join_parts(
                parts.take(n - 2),
            ) + seq!['/'] + parts[n - 2] + seq!['/'] + parts[n - 1]);
        }
    }
}


/// The characters of `s` other than slashes, in order.
pub open spec fn letters(s: Seq<char>) -> Seq<char>
    decreases s.len(),
{
    if s.len() == 0 {
        Seq::empty()
    } else if s.last() == '/' {
        letters(s.drop_last())
    } else {
        letters(s.drop_last()).push(s.last())
    }
}

/// The parts written one after another.
pub open spec fn concat_parts(parts: Seq<Seq<char>>) -> Seq<char>
    decreases parts.len(),
{
    if parts.len() == 0 {
        Seq::empty()
    } else {
        concat_parts(parts.drop_last()) + parts.last()
    }
}

proof fn lemma_letters_concat(a: Seq<char>, b: Seq<char>)
    ensures
        letters(a + b) == letters(a) + letters(b),
    decreases b.len(),
{
    if b.len() == 0 {
        assert(a + b =~= a);
        assert(letters(a) + letters(b) =~= letters(a));
    } else {
        lemma_letters_concat(a, b.drop_last());
        assert((a + b).drop_last() =~= a + b.drop_last());
        assert((a + b).last() == b.last());
        if b.last() != '/' {
            assert(letters(a) + letters(b.drop_last()).push(b.last()) =~= (letters(a) + letters(
                b.drop_last(),
            )).push(b.last()));
        }
    }
}

proof fn lemma_letters_clean(s: Seq<char>)
    requires
        !s.contains('/'),
    ensures
        letters(s) == s,
    decreases s.len(),
{
    if s.len() > 0 {
        assert(!s.drop_last().contains('/')) by {
            if s.drop_last().contains('/') {
                let i = choose|i: int| 0 <= i < s.drop_last().len() && s.drop_last()[i] == '/';
                assert(s[i] == '/');
            }
        }
        lemma_letters_clean(s.drop_last());
        assert(s.last() != '/') by {
            assert(s[s.len() - 1] == s.last());
        }
        assert(s.drop_last().push(s.last()) =~= s);
    } else {
        assert(s =~= Seq::<char>::empty());
    }
}

proof fn lemma_split_state_letters(id: Seq<char>)
    ensures
        letters(id) == concat_parts(split_state(id).0) + split_state(id).1,
    decreases id.len(),
{
    if id.len() == 0 {
        assert(concat_parts(Seq::<Seq<char>>::empty()) + Seq::<char>::empty() =~= Seq::<char>::empty());
    } else {
        lemma_split_state_letters(id.drop_last());
        let (parts, current) = split_state(id.drop_last());
        if id.last() == '/' {
            if current.len() > 0 {
                assert(parts.push(current).drop_last() =~= parts);
                assert(concat_parts(parts.push(current)) + Seq::<char>::empty() =~= concat_parts(parts) + current);
            } else {
                assert(concat_parts(parts) + Seq::<char>::empty() =~= concat_parts(parts) + current);
            }
        } else {
            assert((concat_parts(parts) + current).push(id.last()) =~= concat_parts(parts) + current.push(
                id.last(),
            ));
        }
    }
}

proof fn lemma_join_letters(parts: Seq<Seq<char>>)
    requires
        forall|i: int| 0 <= i < parts.len() ==> !(#[trigger] parts[i]).contains('/'),
    ensures
        letters(join_parts(parts)) == concat_parts(parts),
    decreases parts.len(),
{
    if parts.len() == 0 {
    } else if parts.len() == 1 {
        lemma_letters_clean(parts[0]);
        assert(parts.drop_last() =~= Seq::<Seq<char>>::empty());
        assert(concat_parts(parts.drop_last()) == Seq::<char>::empty());
        assert(parts.last() == parts[0]);
        assert(concat_parts(parts) == concat_parts(parts.drop_last()) + parts.last());
        assert(Seq::<char>::empty() + parts[0] =~= parts[0]);
    } else {
        let front = parts.drop_last();
        assert forall|i: int| 0 <= i < front.len() implies !(#[trigger] front[i]).contains('/') by {
            assert(front[i] == parts[i]);
        }
        lemma_join_letters(front);
        lemma_letters_clean(parts.last());
        lemma_letters_concat(join_parts(front) + seq!['/'], parts.last());
        lemma_letters_concat(join_parts(front), seq!['/']);
        assert(seq!['/'].drop_last() =~= Seq::<char>::empty());
        assert(letters(seq!['/']) == letters(Seq::<char>::empty()));
        assert(letters(join_parts(front)) + letters(Seq::<char>::empty()) =~= letters(join_parts(front)));
    }
}

/// Splitting an id into parts loses no character but the slashes: the
/// parts joined back by slashes hold the id's other characters, in order.
pub proof fn lemma_id_parts_keep_letters(id: Seq<char>)
    ensures
        letters(join_parts(id_parts(id))) == letters(id),
{
    lemma_split_state_letters(id);
    lemma_id_parts_segments(id);
    lemma_join_letters(id_parts(id));
    let (parts, current) = split_state(id);
    if current.len() > 0 {
        assert(parts.push(current).drop_last() =~= parts);
    } else {
        assert(concat_parts(parts) + current =~= concat_parts(parts));
    }
}

} // verus!
