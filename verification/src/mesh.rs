use vstd::prelude::*;

verus! {

/// Unicode `White_Space`, the characters at which the records of a line
/// are split and which are trimmed from its ends.
pub open spec fn white_space(c: char) -> bool {
    let v = c as int;
    ||| 0x09 <= v <= 0x0d
    ||| v == 0x20
    ||| v == 0x85
    ||| v == 0xa0
    ||| v == 0x1680
    ||| 0x2000 <= v <= 0x200a
    ||| v == 0x2028
    ||| v == 0x2029
    ||| v == 0x202f
    ||| v == 0x205f
    ||| v == 0x3000
}

/// Whether `c` is Unicode white space (`char::is_whitespace`).
pub fn is_white_space(c: char) -> (r: bool)
    ensures
        r == white_space(c),
{
    let v = c as u32;
    (0x09 <= v && v <= 0x0d) || v == 0x20 || v == 0x85 || v == 0xa0 || v == 0x1680 || (0x2000 <= v
        && v <= 0x200a) || v == 0x2028 || v == 0x2029 || v == 0x202f || v == 0x205f || v == 0x3000
}

/// The index of the first `'\n'` in `s` at or after `i`, or `s.len()`.
pub open spec fn line_end(s: Seq<char>, i: int) -> int
    decreases s.len() - i,
{
    if i >= s.len() || s[i] == '\n' {
        i
    } else {
        line_end(s, i + 1)
    }
}

/// The lines of `s` from index `i` on: the pieces between `'\n'`s.
pub open spec fn lines_from(s: Seq<char>, i: int) -> Seq<Seq<char>>
    decreases s.len() - i,
{
    if i > s.len() || i < 0 {
        Seq::empty()
    } else {
        let j = line_end(s, i);
        proof {
            lemma_line_end(s, i);
        }
        if j >= s.len() {
            seq![s.subrange(i, s.len() as int)]
        } else {
            seq![s.subrange(i, j)] + lines_from(s, j + 1)
        }
    }
}

/// The lines of `s`, split at `'\n'`.
pub open spec fn lines_of(s: Seq<char>) -> Seq<Seq<char>> {
    lines_from(s, 0)
}

/// The index just past the run of non-white-space characters that starts at `i`.
pub open spec fn run_end(s: Seq<char>, i: int) -> int
    decreases s.len() - i,
{
    if i >= s.len() || i < 0 || white_space(s[i]) {
        i
    } else {
        run_end(s, i + 1)
    }
}

/// The maximal runs of non-white-space characters of `s` from index `i` on.
pub open spec fn tokens_from(s: Seq<char>, i: int) -> Seq<Seq<char>>
    decreases s.len() - i,
{
    if i >= s.len() || i < 0 {
        Seq::empty()
    } else if white_space(s[i]) {
        tokens_from(s, i + 1)
    } else {
        let j = run_end(s, i);
        proof {
            lemma_run_end(s, i);
        }
        seq![s.subrange(i, j)] + tokens_from(s, j)
    }
}

/// The words of a line: its maximal runs of non-white-space characters.
pub open spec fn tokens(s: Seq<char>) -> Seq<Seq<char>> {
    tokens_from(s, 0)
}

/// `line_end` finds the first newline at or after `i`.
pub proof fn lemma_line_end(s: Seq<char>, i: int)
    requires
        0 <= i <= s.len(),
    ensures
        i <= line_end(s, i) <= s.len(),
        line_end(s, i) < s.len() ==> s[line_end(s, i)] == '\n',
        forall|k: int| i <= k < line_end(s, i) ==> s[k] != '\n',
    decreases s.len() - i,
{
    if i < s.len() && s[i] != '\n' {
        lemma_line_end(s, i + 1);
    }
}

/// `run_end` finds the first white space at or after `i`.
pub proof fn lemma_run_end(s: Seq<char>, i: int)
    requires
        0 <= i <= s.len(),
    ensures
        i <= run_end(s, i) <= s.len(),
        run_end(s, i) < s.len() ==> white_space(s[run_end(s, i)]),
        forall|k: int| i <= k < run_end(s, i) ==> !white_space(s[k]),
    decreases s.len() - i,
{
    if i < s.len() && !white_space(s[i]) {
        lemma_run_end(s, i + 1);
    }
}

/// Splits `chars` into its lines.
fn split_lines(chars: &Vec<char>) -> (lines: Vec<Vec<char>>)
    ensures
        lines.deep_view() == lines_of(chars@),
{
    let mut lines: Vec<Vec<char>> = Vec::new();
    let mut cur: Vec<char> = Vec::new();
    let mut start: usize = 0;
    let mut i: usize = 0;
    let n = chars.len();
    proof {
        lemma_line_end(chars@, 0);
    }
    while i < n
        invariant
            n == chars@.len(),
            start <= i <= n,
            line_end(chars@, start as int) >= i,
            cur@ == chars@.subrange(start as int, i as int),
            lines.deep_view() + lines_from(chars@, start as int) == lines_of(chars@),
        decreases n - i,
    {
        proof {
            lemma_line_end(chars@, start as int);
        }
        if chars[i] == '\n' {
            assert(line_end(chars@, i as int) == i);
            assert(line_end(chars@, start as int) == i) by {
                lemma_line_end_at(chars@, start as int, i as int);
            }
            let ghost before = lines.deep_view();
            let ghost piece = chars@.subrange(start as int, i as int);
            assert(lines_from(chars@, start as int) == seq![piece] + lines_from(chars@, i + 1));
            assert(cur.deep_view() =~= piece);
            lines.push(cur);
            assert(lines.deep_view() =~= before.push(piece));
            cur = Vec::new();
            i = i + 1;
            start = i;
            proof {
                lemma_line_end(chars@, start as int);
            }
            assert(cur@ =~= chars@.subrange(start as int, i as int));
            assert(lines.deep_view() + lines_from(chars@, start as int) =~= before + (seq![piece] + lines_from(chars@, start as int)));
        } else {
            proof {
                lemma_line_end_at(chars@, start as int, i as int);
                lemma_line_end(chars@, i + 1);
            }
            cur.push(chars[i]);
            i = i + 1;
            assert(cur@ =~= chars@.subrange(start as int, i as int));
        }
    }
    proof {
        lemma_line_end(chars@, start as int);
    }
    let ghost before = lines.deep_view();
    assert(lines_from(chars@, start as int) == seq![chars@.subrange(start as int, n as int)]);
    assert(cur.deep_view() =~= chars@.subrange(start as int, n as int));
    lines.push(cur);
    assert(lines.deep_view() =~= before + lines_from(chars@, start as int));
    lines
}

/// The first newline at or after `i` is the first at or after any index
/// between `i` and it.
proof fn lemma_line_end_at(s: Seq<char>, i: int, k: int)
    requires
        0 <= i <= k <= line_end(s, i),
        k <= s.len(),
    ensures
        line_end(s, k) == line_end(s, i),
    decreases k - i,
{
    if i < k {
        lemma_line_end_at(s, i + 1, k);
    }
}

/// The end of the run that starts at `i` is the end of the run from any
/// index inside it.
proof fn lemma_run_end_at(s: Seq<char>, i: int, k: int)
    requires
        0 <= i <= k <= run_end(s, i),
        k <= s.len(),
    ensures
        run_end(s, k) == run_end(s, i),
    decreases k - i,
{
    if i < k {
        lemma_run_end_at(s, i + 1, k);
    }
}

/// Splits `line` into its words.
fn tokenize(line: &Vec<char>) -> (toks: Vec<Vec<char>>)
    ensures
        toks.deep_view() == tokens(line@),
{
    let ghost s = line@;
    let n = line.len();
    let mut toks: Vec<Vec<char>> = Vec::new();
    let mut i: usize = 0;
    while i < n
        invariant
            n == s.len(),
            s == line@,
            i <= n,
            toks.deep_view() + tokens_from(s, i as int) == tokens(s),
        decreases n - i,
    {
        if is_white_space(line[i]) {
            assert(tokens_from(s, i as int) == tokens_from(s, i + 1));
            i = i + 1;
        } else {
            let mut word: Vec<char> = Vec::new();
            let mut j: usize = i;
            proof {
                lemma_run_end(s, i as int);
            }
            while j < n && !is_white_space(line[j])
                invariant
                    n == s.len(),
                    s == line@,
                    i <= j <= run_end(s, i as int),
                    run_end(s, i as int) <= n,
                    word@ == s.subrange(i as int, j as int),
                decreases n - j,
            {
                proof {
                    lemma_run_end_at(s, i as int, j as int);
                }
                word.push(line[j]);
                j = j + 1;
                proof {
                    lemma_run_end(s, j as int);
                }
                assert(word@ =~= s.subrange(i as int, j as int));
            }
            proof {
                lemma_run_end_at(s, i as int, j as int);
            }
            assert(j == run_end(s, i as int));
            let ghost before = toks.deep_view();
            assert(tokens_from(s, i as int) == seq![s.subrange(i as int, j as int)] + tokens_from(s, j as int));
            assert(word.deep_view() =~= s.subrange(i as int, j as int));
            toks.push(word);
            assert(toks.deep_view() =~= before.push(s.subrange(i as int, j as int)));
            assert(toks.deep_view() + tokens_from(s, j as int) =~= before + tokens_from(s, i as int));
            i = j;
        }
    }
    assert(toks.deep_view() + tokens_from(s, i as int) =~= toks.deep_view());
    toks
}

/// An ASCII digit, `'0'` to `'9'`.
pub open spec fn is_digit(c: char) -> bool {
    0x30 <= c as int <= 0x39
}

/// Whether every character of `d` is an ASCII digit.
pub open spec fn all_digits(d: Seq<char>) -> bool {
    forall|m: int| 0 <= m < d.len() ==> is_digit(#[trigger] d[m])
}

/// The number that the decimal digits `s` spell.
pub open spec fn digits_value(s: Seq<char>) -> int
    decreases s.len(),
{
    if s.len() == 0 {
        0
    } else {
        digits_value(s.drop_last()) * 10 + (s.last() as int - 0x30)
    }
}

/// The digits of an unsigned decimal: a `'+'` may stand before them.
pub open spec fn unsigned_digits(s: Seq<char>) -> Seq<char> {
    if s.len() > 1 && s[0] == '+' {
        s.drop_first()
    } else {
        s
    }
}

/// The `usize` that `s` spells as a decimal (`str::parse::<usize>`): an
/// optional `'+'`, then one or more ASCII digits, of a value that fits.
pub open spec fn index_value(s: Seq<char>) -> Option<int> {
    let d = unsigned_digits(s);
    if d.len() > 0 && all_digits(d) && digits_value(d) <= usize::MAX {
        Some(digits_value(d))
    } else {
        None
    }
}

proof fn lemma_digits_value_grows(d: Seq<char>, k: int)
    requires
        0 <= k <= d.len(),
        forall|m: int| 0 <= m < d.len() ==> is_digit(#[trigger] d[m]),
    ensures
        0 <= digits_value(d.take(k)) <= digits_value(d),
    decreases d.len() - k,
{
    if k < d.len() {
        lemma_digits_value_grows(d, k + 1);
        assert(d.take(k + 1).drop_last() =~= d.take(k));
    } else {
        assert(d.take(k) =~= d);
        lemma_digits_value_nonneg(d);
    }
}

proof fn lemma_digits_value_nonneg(d: Seq<char>)
    requires
        forall|m: int| 0 <= m < d.len() ==> is_digit(#[trigger] d[m]),
    ensures
        0 <= digits_value(d),
    decreases d.len(),
{
    if d.len() > 0 {
        lemma_digits_value_nonneg(d.drop_last());
    }
}

fn char_code(c: char) -> (r: u32)
    ensures
        r == c as int,
{
    c as u32
}

/// Reads `s` as `str::parse::<usize>` does.
pub fn parse_index(s: &Vec<char>) -> (r: Option<usize>)
    ensures
        r matches Some(v) ==> index_value(s@) == Some(v as int),
        r is None ==> index_value(s@) is None,
{
    let n = s.len();
    let start: usize = if n > 1 && s[0] == '+' { 1 } else { 0 };
    let ghost d = unsigned_digits(s@);
    assert(d =~= s@.subrange(start as int, n as int));
    if start == n {
        return None;
    }
    let mut value: usize = 0;
    let mut k: usize = start;
    while k < n
        invariant
            start <= k <= n,
            n == s@.len(),
            d == s@.subrange(start as int, n as int),
            d == unsigned_digits(s@),
            forall|m: int| 0 <= m < k - start ==> is_digit(#[trigger] d[m]),
            value == digits_value(d.take(k - start)),
        decreases n - k,
    {
        let c = char_code(s[k]);
        assert(d[k - start] == s@[k as int]);
        if !(0x30 <= c && c <= 0x39) {
            assert(!is_digit(d[k - start]));
            assert(index_value_of_digits_fails(d));
            assert(index_value(s@) is None);
            return None;
        }
        let digit = (c - 0x30) as usize;
        assert(d.take(k + 1 - start).last() == d[k - start]);
        assert(d.take(k + 1 - start).drop_last() =~= d.take(k - start));
        match value.checked_mul(10) {
            Some(t) => match t.checked_add(digit) {
                Some(v) => {
                    value = v;
                },
                None => {
                    proof {
                        assert(forall|m: int| 0 <= m < k + 1 - start ==> is_digit(#[trigger] d[m]));
                        lemma_index_overflow(d, k + 1 - start);
                        assert(index_value(s@) is None);
                    }
                    return None;
                },
            },
            None => {
                proof {
                    lemma_index_overflow(d, k + 1 - start);
                    assert(index_value(s@) is None);
                }
                return None;
            },
        }
        k = k + 1;
    }
    assert(d.take(n - start) =~= d);
    Some(value)
}

/// A prefix of digits worth more than `usize::MAX` makes the whole worth more.
proof fn lemma_index_overflow(d: Seq<char>, k: int)
    requires
        0 < k <= d.len(),
        forall|m: int| 0 <= m < k ==> is_digit(#[trigger] d[m]),
        digits_value(d.take(k)) > usize::MAX,
    ensures
        index_value_of_digits_fails(d),
{
    if all_digits(d) {
        lemma_digits_value_grows(d, k);
    }
}

/// Whether the digits `d` spell no `usize`.
pub open spec fn index_value_of_digits_fails(d: Seq<char>) -> bool {
    !(all_digits(d) && digits_value(d) <= usize::MAX)
}

/// Appends `c` to `s` with `String::push`, which adds the character at
/// the end of the string.
#[verifier::external_body]
fn push_char(s: &mut String, c: char)
    ensures
        final(s)@ == old(s)@.push(c),
{
    s.push(c);
}

fn string_of(chars: &Vec<char>) -> (s: String)
    ensures
        s@ == chars@,
{
    let mut s = String::new();
    let mut k: usize = 0;
    while k < chars.len()
        invariant
            k <= chars@.len(),
            s@ == chars@.take(k as int),
        decreases chars.len() - k,
    {
        push_char(&mut s, chars[k]);
        k = k + 1;
        assert(s@ =~= chars@.take(k as int));
    }
    assert(chars@.take(k as int) =~= chars@);
    s
}

/// The index of the first `'/'` in `s` at or after `i`, or `s.len()`.
pub open spec fn segment_end(s: Seq<char>, i: int) -> int
    decreases s.len() - i,
{
    if i >= s.len() || i < 0 || s[i] == '/' {
        i
    } else {
        segment_end(s, i + 1)
    }
}

/// The part of a face word before its first `'/'`: the position index.
pub open spec fn first_segment(s: Seq<char>) -> Seq<char> {
    s.subrange(0, segment_end(s, 0))
}

fn first_segment_of(word: &Vec<char>) -> (seg: Vec<char>)
    ensures
        seg@ == first_segment(word@),
{
    let mut seg: Vec<char> = Vec::new();
    let mut k: usize = 0;
    while k < word.len() && word[k] != '/'
        invariant
            k <= word@.len(),
            segment_end(word@, k as int) == segment_end(word@, 0),
            seg@ == word@.subrange(0, k as int),
        decreases word.len() - k,
    {
        seg.push(word[k]);
        k = k + 1;
        assert(seg@ =~= word@.subrange(0, k as int));
    }
    seg
}

/// The position indices of the words of a face record, read up to the
/// first word that does not start with one.
pub open spec fn face_values(words: Seq<Seq<char>>) -> Seq<int>
    decreases words.len(),
{
    if words.len() == 0 {
        Seq::empty()
    } else {
        match index_value(first_segment(words[0])) {
            Some(v) => seq![v] + face_values(words.drop_first()),
            None => Seq::empty(),
        }
    }
}

/// Whether every word of a face record starts with a position index.
pub open spec fn face_complete(words: Seq<Seq<char>>) -> bool
    decreases words.len(),
{
    words.len() == 0 || (index_value(first_segment(words[0])) is Some && face_complete(words.drop_first()))
}

/// The zero-based indices that a face record lists: one less than each value read.
pub open spec fn face_indices(words: Seq<Seq<char>>) -> Seq<int> {
    face_values(words).map_values(|v: int| v - 1)
}

/// Why a record could not be read.
#[derive(Debug, Clone, Copy, PartialEq, Eq)]
pub enum MeshError {
    /// A vertex record has fewer than three coordinates.
    MissingData,
    /// A coordinate of a vertex record does not read as an `f32`.
    InvalidNumber,
    /// A face word does not start with a decimal position index.
    InvalidIndex,
}

/// A vertex of a mesh: the texts of its three coordinates, as written;
/// `parse` keeps only texts that read as `f32`.
#[derive(Debug, Clone)]
pub struct Vertex {
    pub position: [String; 3],
}

impl Vertex {
    pub open spec fn coords(self) -> Seq<Seq<char>> {
        seq![self.position[0]@, self.position[1]@, self.position[2]@]
    }
}

/// A triangle mesh: its vertices, and the vertex indices of its faces in order.
#[derive(Debug, Clone)]
pub struct Mesh {
    pub positions: Vec<Vertex>,
    pub indices: Vec<usize>,
}

impl Mesh {
    pub open spec fn position_texts(self) -> Seq<Seq<Seq<char>>> {
        self.positions@.map_values(|v: Vertex| v.coords())
    }

    pub open spec fn index_values(self) -> Seq<int> {
        self.indices@.map_values(|i: usize| i as int)
    }
}

impl Default for Mesh {
    fn default() -> (m: Self)
        ensures
            m.positions@.len() == 0,
            m.indices@.len() == 0,
    {
        Self { positions: Vec::new(), indices: Vec::new() }
    }
}

/// `c` is the lower-case ASCII letter `lower` or its capital.
pub open spec fn letter_is(c: char, lower: char) -> bool {
    c == lower || c as int == lower as int - 32
}

/// `s` without a leading `'+'` or `'-'`.
pub open spec fn without_sign(s: Seq<char>) -> Seq<char> {
    if s.len() > 0 && (s[0] == '+' || s[0] == '-') {
        s.drop_first()
    } else {
        s
    }
}

/// `inf`, `infinity` or `nan`, in any mix of cases.
pub open spec fn is_special_float(t: Seq<char>) -> bool {
    ||| t.len() == 3 && letter_is(t[0], 'i') && letter_is(t[1], 'n') && letter_is(t[2], 'f')
    ||| t.len() == 8 && letter_is(t[0], 'i') && letter_is(t[1], 'n') && letter_is(t[2], 'f') && letter_is(
        t[3],
        'i',
    ) && letter_is(t[4], 'n') && letter_is(t[5], 'i') && letter_is(t[6], 't') && letter_is(t[7], 'y')
    ||| t.len() == 3 && letter_is(t[0], 'n') && letter_is(t[1], 'a') && letter_is(t[2], 'n')
}

/// The index of the first `a` or `b` in `s` at or after `i`, or `s.len()`.
pub open spec fn first_of(s: Seq<char>, i: int, a: char, b: char) -> int
    decreases s.len() - i,
{
    if i >= s.len() || i < 0 || s[i] == a || s[i] == b {
        i
    } else {
        first_of(s, i + 1, a, b)
    }
}

/// Digits with at most one `'.'` among them, and at least one digit.
pub open spec fn is_mantissa(m: Seq<char>) -> bool {
    let d = first_of(m, 0, '.', '.');
    if d < m.len() {
        m.len() >= 2 && all_digits(m.subrange(0, d)) && all_digits(m.subrange(d + 1, m.len() as int))
    } else {
        m.len() >= 1 && all_digits(m)
    }
}

/// `e` or `E`, an optional sign, then one or more digits.
pub open spec fn is_exponent(e: Seq<char>) -> bool {
    &&& e.len() >= 2
    &&& (e[0] == 'e' || e[0] == 'E')
    &&& without_sign(e.subrange(1, e.len() as int)).len() > 0
    &&& all_digits(without_sign(e.subrange(1, e.len() as int)))
}

/// Whether `s` is a literal that `str::parse::<f32>` reads: an optional
/// sign, then `inf`, `infinity` or `nan` in any case, or a mantissa of
/// digits with an optional `'.'` (one digit at least) followed by an
/// optional exponent.
pub open spec fn float_literal(s: Seq<char>) -> bool {
    let t = without_sign(s);
    let k = first_of(t, 0, 'e', 'E');
    ||| is_special_float(t)
    ||| is_mantissa(t.subrange(0, k)) && (k == t.len() || is_exponent(t.subrange(k, t.len() as int)))
}

pub proof fn lemma_first_of(s: Seq<char>, i: int, a: char, b: char)
    requires
        0 <= i <= s.len(),
    ensures
        i <= first_of(s, i, a, b) <= s.len(),
        first_of(s, i, a, b) < s.len() ==> (s[first_of(s, i, a, b)] == a || s[first_of(s, i, a, b)] == b),
    decreases s.len() - i,
{
    if i < s.len() && s[i] != a && s[i] != b {
        lemma_first_of(s, i + 1, a, b);
    }
}

fn find_first_of(s: &Vec<char>, a: char, b: char) -> (k: usize)
    ensures
        k == first_of(s@, 0, a, b),
{
    let mut k: usize = 0;
    proof {
        lemma_first_of(s@, 0, a, b);
    }
    while k < s.len() && s[k] != a && s[k] != b
        invariant
            k <= s@.len(),
            k <= first_of(s@, 0, a, b),
            first_of(s@, k as int, a, b) == first_of(s@, 0, a, b),
        decreases s.len() - k,
    {
        k = k + 1;
        proof {
            lemma_first_of(s@, k as int, a, b);
        }
    }
    k
}

fn copy_range(s: &Vec<char>, lo: usize, hi: usize) -> (r: Vec<char>)
    requires
        lo <= hi <= s@.len(),
    ensures
        r@ == s@.subrange(lo as int, hi as int),
{
    let mut r: Vec<char> = Vec::new();
    let mut k = lo;
    while k < hi
        invariant
            lo <= k <= hi,
            hi <= s@.len(),
            r@ == s@.subrange(lo as int, k as int),
        decreases hi - k,
    {
        r.push(s[k]);
        k = k + 1;
        assert(r@ =~= s@.subrange(lo as int, k as int));
    }
    r
}

fn digits_in(s: &Vec<char>, lo: usize, hi: usize) -> (r: bool)
    requires
        lo <= hi <= s@.len(),
    ensures
        r == all_digits(s@.subrange(lo as int, hi as int)),
{
    let mut k = lo;
    while k < hi
        invariant
            lo <= k <= hi,
            hi <= s@.len(),
            all_digits(s@.subrange(lo as int, k as int)),
        decreases hi - k,
    {
        let c = char_code(s[k]);
        if !(0x30 <= c && c <= 0x39) {
            assert(s@.subrange(lo as int, hi as int)[k - lo] == s@[k as int]);
            return false;
        }
        k = k + 1;
        assert forall|m: int| 0 <= m < k - lo implies is_digit(#[trigger] s@.subrange(lo as int, k as int)[m]) by {
            if m < k - 1 - lo {
                assert(s@.subrange(lo as int, k as int)[m] == s@.subrange(lo as int, k - 1)[m]);
            }
        }
    }
    true
}

fn drop_sign(s: &Vec<char>) -> (r: Vec<char>)
    ensures
        r@ == without_sign(s@),
{
    if s.len() > 0 && (s[0] == '+' || s[0] == '-') {
        let r = copy_range(s, 1, s.len());
        assert(r@ =~= s@.drop_first());
        r
    } else {
        copy_range(s, 0, s.len())
    }
}

fn letter_matches(c: char, lower: char) -> (r: bool)
    ensures
        r == letter_is(c, lower),
{
    let cc = char_code(c);
    let lc = char_code(lower);
    c == lower || (lc >= 32 && cc == lc - 32)
}

fn special_float(t: &Vec<char>) -> (r: bool)
    ensures
        r == is_special_float(t@),
{
    let n = t.len();
    (n == 3 && letter_matches(t[0], 'i') && letter_matches(t[1], 'n') && letter_matches(t[2], 'f')) || (n == 8
        && letter_matches(t[0], 'i') && letter_matches(t[1], 'n') && letter_matches(t[2], 'f')
        && letter_matches(t[3], 'i') && letter_matches(t[4], 'n') && letter_matches(t[5], 'i')
        && letter_matches(t[6], 't') && letter_matches(t[7], 'y')) || (n == 3 && letter_matches(t[0], 'n')
        && letter_matches(t[1], 'a') && letter_matches(t[2], 'n'))
}

fn mantissa_ok(m: &Vec<char>) -> (r: bool)
    ensures
        r == is_mantissa(m@),
{
    let d = find_first_of(m, '.', '.');
    proof {
        lemma_first_of(m@, 0, '.', '.');
    }
    if d < m.len() {
        m.len() >= 2 && digits_in(m, 0, d) && digits_in(m, d + 1, m.len())
    } else {
        assert(m@.subrange(0, m@.len() as int) =~= m@);
        m.len() >= 1 && digits_in(m, 0, m.len())
    }
}

fn exponent_ok(e: &Vec<char>) -> (r: bool)
    ensures
        r == is_exponent(e@),
{
    if e.len() < 2 || !(e[0] == 'e' || e[0] == 'E') {
        return false;
    }
    let rest = copy_range(e, 1, e.len());
    let r = drop_sign(&rest);
    assert(r@.subrange(0, r@.len() as int) =~= r@);
    r.len() > 0 && digits_in(&r, 0, r.len())
}

/// Whether `word` reads as an `f32` with `str::parse::<f32>`.
pub fn is_float_literal(word: &Vec<char>) -> (r: bool)
    ensures
        r == float_literal(word@),
{
    let t = drop_sign(word);
    if special_float(&t) {
        return true;
    }
    let k = find_first_of(&t, 'e', 'E');
    proof {
        lemma_first_of(t@, 0, 'e', 'E');
    }
    let m = copy_range(&t, 0, k);
    if !mantissa_ok(&m) {
        return false;
    }
    if k == t.len() {
        return true;
    }
    let e = copy_range(&t, k, t.len());
    exponent_ok(&e)
}

/// Why a vertex record with the words `ws` after its keyword is not read:
/// its first three words, taken in order, must each be there and read as
/// an `f32`.
pub open spec fn vertex_error(ws: Seq<Seq<char>>) -> Option<MeshError> {
    if ws.len() < 1 {
        Some(MeshError::MissingData)
    } else if !float_literal(ws[0]) {
        Some(MeshError::InvalidNumber)
    } else if ws.len() < 2 {
        Some(MeshError::MissingData)
    } else if !float_literal(ws[1]) {
        Some(MeshError::InvalidNumber)
    } else if ws.len() < 3 {
        Some(MeshError::MissingData)
    } else if !float_literal(ws[2]) {
        Some(MeshError::InvalidNumber)
    } else {
        None
    }
}

/// Reads the coordinates of a vertex record from `words[first..]` and
/// adds the vertex to `mesh`; fails, leaving `mesh` as it was, at the first
/// of the three coordinates that is missing or does not read as an `f32`.
fn parse_position(words: &Vec<Vec<char>>, first: usize, mesh: &mut Mesh) -> (r: Result<(), MeshError>)
    requires
        first <= words@.len(),
    ensures
        r == match vertex_error(words.deep_view().skip(first as int)) {
            Some(e) => Err::<(), MeshError>(e),
            None => Ok(()),
        },
        final(mesh).position_texts() == if vertex_error(words.deep_view().skip(first as int)) is None {
            old(mesh).position_texts().push(words.deep_view().subrange(first as int, first + 3))
        } else {
            old(mesh).position_texts()
        },
        final(mesh).indices@ == old(mesh).indices@,
{
    proof {
        lemma_deep_words(words);
    }
    let ghost ws = words.deep_view().skip(first as int);
    assert(ws.len() == words@.len() - first);
    assert(forall|k: int| 0 <= k < ws.len() ==> #[trigger] ws[k] == words@[first + k]@);
    if words.len() - first < 1 {
        return Err(MeshError::MissingData);
    }
    if !is_float_literal(&words[first]) {
        return Err(MeshError::InvalidNumber);
    }
    if words.len() - first < 2 {
        return Err(MeshError::MissingData);
    }
    if !is_float_literal(&words[first + 1]) {
        return Err(MeshError::InvalidNumber);
    }
    if words.len() - first < 3 {
        return Err(MeshError::MissingData);
    }
    if !is_float_literal(&words[first + 2]) {
        return Err(MeshError::InvalidNumber);
    }
    let x = string_of(&words[first]);
    let y = string_of(&words[first + 1]);
    let z = string_of(&words[first + 2]);
    let v = Vertex { position: [x, y, z] };
    let ghost before = mesh.position_texts();
    mesh.positions.push(v);
    assert(v.coords() =~= words.deep_view().subrange(first as int, first + 3));
    assert(mesh.position_texts() =~= before.push(words.deep_view().subrange(first as int, first + 3)));
    Ok(())
}

proof fn lemma_deep_words(words: &Vec<Vec<char>>)
    ensures
        words.deep_view().len() == words@.len(),
        forall|k: int| 0 <= k < words@.len() ==> #[trigger] words.deep_view()[k] == words@[k]@,
{
    assert forall|k: int| 0 <= k < words@.len() implies #[trigger] words.deep_view()[k] == words@[k]@ by {
        assert(words@[k].deep_view() =~= words@[k]@);
    }
}

proof fn lemma_face_append(p: Seq<Seq<char>>, q: Seq<Seq<char>>)
    requires
        face_complete(p),
    ensures
        face_values(p + q) == face_values(p) + face_values(q),
        face_complete(p + q) == face_complete(q),
        face_values(p).len() == p.len(),
    decreases p.len(),
{
    if p.len() > 0 {
        lemma_face_append(p.drop_first(), q);
        assert((p + q).drop_first() =~= p.drop_first() + q);
        assert((p + q)[0] == p[0]);
        assert(face_values(p + q) =~= face_values(p) + face_values(q));
    } else {
        assert(p + q =~= q);
        assert(face_values(p) + face_values(q) =~= face_values(q));
    }
}

/// Reads the position indices of a face record from `words[first..]`,
/// adding each, less one, to `mesh`; stops with an error at the first word
/// that does not start with an index.
fn parse_face(words: &Vec<Vec<char>>, first: usize, mesh: &mut Mesh) -> (r: Result<(), MeshError>)
    requires
        first <= words@.len(),
        !face_values(words.deep_view().skip(first as int)).contains(0),
    ensures
        r is Ok <==> face_complete(words.deep_view().skip(first as int)),
        r is Err ==> r == Err::<(), MeshError>(MeshError::InvalidIndex),
        final(mesh).index_values() == old(mesh).index_values() + face_indices(words.deep_view().skip(first as int)),
        final(mesh).positions@ == old(mesh).positions@,
{
    let ghost w = words.deep_view();
    proof {
        lemma_deep_words(words);
    }
    let ghost all = w.skip(first as int);
    let ghost start = mesh.index_values();
    let mut k: usize = first;
    assert(w.subrange(first as int, first as int) =~= Seq::<Seq<char>>::empty());
    assert(face_indices(Seq::<Seq<char>>::empty()) =~= Seq::<int>::empty());
    assert(start + Seq::<int>::empty() =~= start);
    while k < words.len()
        invariant
            first <= k <= words@.len(),
            w == words.deep_view(),
            all == w.skip(first as int),
            !face_values(all).contains(0),
            face_complete(w.subrange(first as int, k as int)),
            mesh.index_values() == start + face_indices(w.subrange(first as int, k as int)),
            mesh.positions@ == old(mesh).positions@,
            start == old(mesh).index_values(),
        decreases words.len() - k,
    {
        let ghost p = w.subrange(first as int, k as int);
        let ghost q = w.skip(k as int);
        assert(all =~= p + q);
        assert(q[0] == words[k as int]@);
        assert(q.drop_first() =~= w.skip(k + 1));
        proof {
            lemma_face_append(p, q);
        }
        let seg = first_segment_of(&words[k]);
        match parse_index(&seg) {
            Some(v) => {
                let ghost p2 = w.subrange(first as int, k + 1);
                proof {
                    assert(face_values(q) == seq![v as int] + face_values(q.drop_first()));
                    assert(face_values(all)[p.len() as int] == v);
                    assert(v != 0);
                    assert(p2 =~= p + seq![words[k as int]@]);
                    let one = seq![words[k as int]@];
                    assert(one[0] == words[k as int]@);
                    assert(one.drop_first() =~= Seq::<Seq<char>>::empty());
                    assert(index_value(first_segment(one[0])) == Some(v as int));
                    assert(face_values(Seq::<Seq<char>>::empty()) =~= Seq::<int>::empty());
                    assert(face_complete(Seq::<Seq<char>>::empty()));
                    assert(face_values(one) =~= seq![v as int] + Seq::<int>::empty());
                    assert(face_complete(one));
                    lemma_face_append(p, seq![words[k as int]@]);
                    assert(face_indices(p2) =~= face_indices(p).push(v - 1));
                }
                let ghost before = mesh.index_values();
                mesh.indices.push(v - 1);
                assert(mesh.index_values() =~= before.push(v - 1));
                k = k + 1;
                assert(mesh.index_values() =~= start + face_indices(w.subrange(first as int, k as int)));
            },
            None => {
                proof {
                    assert(face_values(q) =~= Seq::<int>::empty());
                    assert(!face_complete(q));
                    assert(face_indices(all) =~= face_indices(p));
                }
                return Err(MeshError::InvalidIndex);
            },
        }
    }
    assert(w.subrange(first as int, k as int) =~= all);
    Ok(())
}

/// The vertex that a line adds: a line whose first word is `v` and whose
/// next three words read as `f32` adds a vertex with those three coordinates.
pub open spec fn line_positions(t: Seq<Seq<char>>) -> Seq<Seq<Seq<char>>> {
    if t.len() >= 4 && t[0] == seq!['v'] && vertex_error(t.drop_first()) is None {
        seq![t.subrange(1, 4)]
    } else {
        Seq::empty()
    }
}

/// The indices that a line adds: those of a face record, first word `f`.
pub open spec fn line_indices(t: Seq<Seq<char>>) -> Seq<int> {
    if t.len() > 0 && t[0] == seq!['f'] {
        face_indices(t.drop_first())
    } else {
        Seq::empty()
    }
}

/// Whether a line is a face record that reads a position index of 0.
pub open spec fn line_reads_zero(t: Seq<Seq<char>>) -> bool {
    t.len() > 0 && t[0] == seq!['f'] && face_values(t.drop_first()).contains(0)
}

/// The vertices that the lines `ls` describe, in order.
pub open spec fn mesh_positions(ls: Seq<Seq<char>>) -> Seq<Seq<Seq<char>>>
    decreases ls.len(),
{
    if ls.len() == 0 {
        Seq::empty()
    } else {
        mesh_positions(ls.drop_last()) + line_positions(tokens(ls.last()))
    }
}

/// The face indices that the lines `ls` describe, in order.
pub open spec fn mesh_indices(ls: Seq<Seq<char>>) -> Seq<int>
    decreases ls.len(),
{
    if ls.len() == 0 {
        Seq::empty()
    } else {
        mesh_indices(ls.drop_last()) + line_indices(tokens(ls.last()))
    }
}

/// Whether some face record of `text` reads a position index of 0, which
/// has no vertex before it.
pub open spec fn has_zero_index(text: Seq<char>) -> bool {
    exists|k: int| 0 <= k < lines_of(text).len() && line_reads_zero(tokens(#[trigger] lines_of(text)[k]))
}

fn chars_of(text: &str) -> (chars: Vec<char>)
    ensures
        chars@ == text@,
{
    let mut chars: Vec<char> = Vec::new();
    for c in it: text.chars()
        invariant
            it.seq() == text@,
            chars@ == text@.take(it.index()),
    {
        chars.push(c);
        assert(chars@ =~= text@.take(it.index() + 1));
    }
    assert(text@.take(text@.len() as int) =~= text@);
    chars
}

fn is_keyword(word: &Vec<char>, c: char) -> (r: bool)
    ensures
        r == (word@ == seq![c]),
{
    if word.len() == 1 && word[0] == c {
        assert(word@ =~= seq![c]);
        true
    } else {
        false
    }
}

/// Whether a face record `words` (its keyword first) reads a position index of 0.
fn face_reads_zero(words: &Vec<Vec<char>>) -> (r: bool)
    requires
        words@.len() >= 1,
    ensures
        r == face_values(words.deep_view().skip(1)).contains(0),
{
    let ghost w = words.deep_view();
    proof {
        lemma_deep_words(words);
    }
    let ghost all = w.skip(1);
    let mut k: usize = 1;
    assert(w.subrange(1, 1) =~= Seq::<Seq<char>>::empty());
    assert(face_values(Seq::<Seq<char>>::empty()) =~= Seq::<int>::empty());
    while k < words.len()
        invariant
            1 <= k <= words@.len(),
            w == words.deep_view(),
            w.len() == words@.len(),
            forall|j: int| 0 <= j < words@.len() ==> #[trigger] w[j] == words@[j]@,
            all == w.skip(1),
            face_complete(w.subrange(1, k as int)),
            !face_values(w.subrange(1, k as int)).contains(0),
        decreases words.len() - k,
    {
        let ghost p = w.subrange(1, k as int);
        let ghost q = w.skip(k as int);
        assert(all =~= p + q);
        assert(q[0] == words[k as int]@);
        assert(q.drop_first() =~= w.skip(k + 1));
        proof {
            lemma_face_append(p, q);
        }
        let seg = first_segment_of(&words[k]);
        match parse_index(&seg) {
            Some(v) => {
                assert(face_values(q) == seq![v as int] + face_values(q.drop_first()));
                assert(face_values(all)[p.len() as int] == v);
                if v == 0 {
                    return true;
                }
                proof {
                    let one = seq![words[k as int]@];
                    assert(one[0] == words[k as int]@);
                    assert(one.drop_first() =~= Seq::<Seq<char>>::empty());
                    assert(face_values(Seq::<Seq<char>>::empty()) =~= Seq::<int>::empty());
                    assert(face_complete(Seq::<Seq<char>>::empty()));
                    assert(face_values(one) =~= seq![v as int] + Seq::<int>::empty());
                    assert(face_complete(one));
                    lemma_face_append(p, one);
                    assert(w.subrange(1, k + 1) =~= p + one);
                    assert(face_values(p + one) =~= face_values(p).push(v as int));
                }
                k = k + 1;
            },
            None => {
                assert(face_values(q) =~= Seq::<int>::empty());
                assert(face_values(all) =~= face_values(p));
                return false;
            },
        }
    }
    assert(w.subrange(1, k as int) =~= all);
    false
}

impl Mesh {
    /// Reads the vertex (`v x y z`) and face (`f i j k ...`) records of
    /// Wavefront OBJ text, line by line. Blank lines, lines whose first
    /// word starts with `#`, other records, a vertex record whose first
    /// three coordinates are not all there and readable as `f32`
    /// (`float_literal`), and the words of a face record from the first one
    /// that does not start with a position index on, are skipped. A face
    /// word may add `/`-separated parts after its index; indices are stored
    /// one less than written. A vertex keeps the texts of its coordinates.
    pub fn parse(text: &str) -> (r: Result<Mesh, MeshError>)
        requires
            !has_zero_index(text@),
        ensures
            r matches Ok(m) && m.position_texts() == mesh_positions(lines_of(text@)) && m.index_values()
                == mesh_indices(lines_of(text@)),
    {
        let chars = chars_of(text);
        let lines = split_lines(&chars);
        let ghost ls = lines.deep_view();
        proof {
            lemma_deep_words(&lines);
        }
        let mut mesh = Mesh::default();
        assert(mesh.position_texts() =~= mesh_positions(ls.take(0)));
        assert(mesh.index_values() =~= mesh_indices(ls.take(0)));
        let mut k: usize = 0;
        while k < lines.len()
            invariant
                k <= lines@.len(),
                ls == lines.deep_view(),
                ls == lines_of(text@),
                ls.len() == lines@.len(),
                forall|j: int| 0 <= j < lines@.len() ==> #[trigger] ls[j] == lines@[j]@,
                !has_zero_index(text@),
                mesh.position_texts() == mesh_positions(ls.take(k as int)),
                mesh.index_values() == mesh_indices(ls.take(k as int)),
            decreases lines.len() - k,
        {
            let words = tokenize(&lines[k]);
            let ghost t = tokens(ls[k as int]);
            proof {
                lemma_deep_words(&words);
                assert(ls.take(k + 1).drop_last() =~= ls.take(k as int));
                assert(ls.take(k + 1).last() == ls[k as int]);
                if line_reads_zero(t) {
                    assert(line_reads_zero(tokens(lines_of(text@)[k as int])));
                }
            }
            assert(t == words.deep_view());
            let ghost before_p = mesh.position_texts();
            let ghost before_i = mesh.index_values();
            if words.len() == 0 || words[0].len() == 0 || words[0][0] == '#' {
                assert(line_positions(t) =~= Seq::<Seq<Seq<char>>>::empty());
                assert(line_indices(t) =~= Seq::<int>::empty());
            } else if is_keyword(&words[0], 'v') {
                let _ = parse_position(&words, 1, &mut mesh);
                assert(t.len() < 4 ==> line_positions(t) =~= Seq::<Seq<Seq<char>>>::empty());
            } else if is_keyword(&words[0], 'f') {
                assert(t.skip(1) =~= t.drop_first());
                let _ = parse_face(&words, 1, &mut mesh);
            } else {
                assert(line_positions(t) =~= Seq::<Seq<Seq<char>>>::empty());
                assert(line_indices(t) =~= Seq::<int>::empty());
            }
            assert(mesh.position_texts() =~= before_p + line_positions(t));
            assert(mesh.index_values() =~= before_i + line_indices(t));
            k = k + 1;
        }
        assert(ls.take(k as int) =~= ls);
        Ok(mesh)
    }

    /// Whether some face record of `text` reads a position index of 0;
    /// `parse` accepts exactly the texts for which this is false.
    pub fn has_zero_index(text: &str) -> (r: bool)
        ensures
            r == has_zero_index(text@),
    {
        let chars = chars_of(text);
        let lines = split_lines(&chars);
        let ghost ls = lines.deep_view();
        proof {
            lemma_deep_words(&lines);
        }
        let mut k: usize = 0;
        while k < lines.len()
            invariant
                k <= lines@.len(),
                ls == lines.deep_view(),
                ls == lines_of(text@),
                ls.len() == lines@.len(),
                forall|j: int| 0 <= j < lines@.len() ==> #[trigger] ls[j] == lines@[j]@,
                forall|j: int| 0 <= j < k ==> !line_reads_zero(tokens(#[trigger] ls[j])),
            decreases lines.len() - k,
        {
            let words = tokenize(&lines[k]);
            let ghost t = tokens(ls[k as int]);
            proof {
                lemma_deep_words(&words);
            }
            assert(t == words.deep_view());
            if words.len() > 0 && is_keyword(&words[0], 'f') {
                assert(t.skip(1) =~= t.drop_first());
                if face_reads_zero(&words) {
                    assert(line_reads_zero(tokens(ls[k as int])));
                    return true;
                }
            }
            k = k + 1;
        }
        false
    }
}


/// A blank line, or one whose first word starts with `#`, adds neither
/// vertices nor face indices.
pub proof fn lemma_comment_adds_nothing(line: Seq<char>)
    requires
        tokens(line).len() == 0 || (tokens(line)[0].len() > 0 && tokens(line)[0][0] == '#'),
    ensures
        line_positions(tokens(line)) == Seq::<Seq<Seq<char>>>::empty(),
        line_indices(tokens(line)) == Seq::<int>::empty(),
{
    let t = tokens(line);
    if t.len() > 0 {
        assert(t[0] != seq!['v']) by {
            assert(seq!['v'][0] == 'v');
        }
        assert(t[0] != seq!['f']) by {
            assert(seq!['f'][0] == 'f');
        }
    }
}

proof fn lemma_mesh_append(a: Seq<Seq<char>>, b: Seq<Seq<char>>)
    ensures
        mesh_positions(a + b) == mesh_positions(a) + mesh_positions(b),
        mesh_indices(a + b) == mesh_indices(a) + mesh_indices(b),
    decreases b.len(),
{
    if b.len() == 0 {
        assert(a + b =~= a);
        assert(mesh_positions(a) + mesh_positions(b) =~= mesh_positions(a));
        assert(mesh_indices(a) + mesh_indices(b) =~= mesh_indices(a));
    } else {
        lemma_mesh_append(a, b.drop_last());
        assert((a + b).drop_last() =~= a + b.drop_last());
        assert((a + b).last() == b.last());
        assert(mesh_positions(a + b) =~= mesh_positions(a) + mesh_positions(b));
        assert(mesh_indices(a + b) =~= mesh_indices(a) + mesh_indices(b));
    }
}

/// Taking out a blank line or a comment line leaves the mesh as it was.
pub proof fn lemma_comment_line_ignored(before: Seq<Seq<char>>, line: Seq<char>, after: Seq<Seq<char>>)
    requires
        tokens(line).len() == 0 || (tokens(line)[0].len() > 0 && tokens(line)[0][0] == '#'),
    ensures
        mesh_positions(before + seq![line] + after) == mesh_positions(before + after),
        mesh_indices(before + seq![line] + after) == mesh_indices(before + after),
{
    lemma_comment_adds_nothing(line);
    lemma_mesh_append(before + seq![line], after);
    lemma_mesh_append(before, seq![line]);
    lemma_mesh_append(before, after);
    assert(seq![line].drop_last() =~= Seq::<Seq<char>>::empty());
    assert(seq![line].last() == line);
    assert(mesh_positions(Seq::<Seq<char>>::empty()) =~= Seq::<Seq<Seq<char>>>::empty());
    assert(mesh_indices(Seq::<Seq<char>>::empty()) =~= Seq::<int>::empty());
    assert(mesh_positions(seq![line]) =~= Seq::<Seq<Seq<char>>>::empty() + line_positions(tokens(line)));
    assert(mesh_indices(seq![line]) =~= Seq::<int>::empty() + line_indices(tokens(line)));
    assert(mesh_positions(before) + Seq::<Seq<Seq<char>>>::empty() =~= mesh_positions(before));
    assert(mesh_indices(before) + Seq::<int>::empty() =~= mesh_indices(before));
}

proof fn lemma_segment_end_after(s: Seq<char>, n: int, i: int)
    requires
        0 <= i <= n < s.len(),
        s[n] == '/',
        forall|k: int| 0 <= k < n ==> s[k] != '/',
    ensures
        segment_end(s, i) == n,
    decreases n - i,
{
    if i < n {
        lemma_segment_end_after(s, n, i + 1);
    }
}

/// What follows the first `/` of a face word does not change the index it gives.
pub proof fn lemma_face_word_parts(index: Seq<char>, rest: Seq<char>)
    requires
        !index.contains('/'),
    ensures
        first_segment(index + seq!['/'] + rest) == index,
{
    let s = index + seq!['/'] + rest;
    assert(s[index.len() as int] == '/');
    assert forall|k: int| 0 <= k < index.len() implies s[k] != '/' by {
        assert(s[k] == index[k]);
    }
    lemma_segment_end_after(s, index.len() as int, 0);
    assert(s.subrange(0, index.len() as int) =~= index);
}

/// Whether every character of `w` is white space.
pub open spec fn all_white(w: Seq<char>) -> bool {
    forall|k: int| 0 <= k < w.len() ==> white_space(#[trigger] w[k])
}

/// The vertices that the text `text` describes.
pub open spec fn text_positions(text: Seq<char>) -> Seq<Seq<Seq<char>>> {
    mesh_positions(lines_of(text))
}

/// The face indices that the text `text` describes.
pub open spec fn text_indices(text: Seq<char>) -> Seq<int> {
    mesh_indices(lines_of(text))
}

proof fn lemma_line_end_shift(p: Seq<char>, r: Seq<char>, i: int)
    requires
        0 <= i <= r.len(),
    ensures
        line_end(p + r, p.len() + i) == p.len() + line_end(r, i),
    decreases r.len() - i,
{
    let s = p + r;
    if i < r.len() {
        assert(s[p.len() + i] == r[i]);
        if r[i] != '\n' {
            lemma_line_end_shift(p, r, i + 1);
        }
    }
}

proof fn lemma_lines_shift(p: Seq<char>, r: Seq<char>, i: int)
    requires
        0 <= i <= r.len(),
    ensures
        lines_from(p + r, p.len() + i) == lines_from(r, i),
    decreases r.len() - i,
{
    let s = p + r;
    lemma_line_end_shift(p, r, i);
    lemma_line_end(r, i);
    let j = line_end(r, i);
    assert(s.subrange(p.len() + i, p.len() + j) =~= r.subrange(i, j));
    if j < r.len() {
        lemma_lines_shift(p, r, j + 1);
    } else {
        assert(s.subrange(p.len() + i, s.len() as int) =~= r.subrange(i, r.len() as int));
    }
}

proof fn lemma_line_end_prefix(pre: Seq<char>, rest: Seq<char>, i: int)
    requires
        0 <= i <= pre.len(),
    ensures
        line_end(pre + seq!['\n'] + rest, i) == line_end(pre, i),
    decreases pre.len() - i,
{
    let s = pre + seq!['\n'] + rest;
    if i < pre.len() {
        assert(s[i] == pre[i]);
        if pre[i] != '\n' {
            lemma_line_end_prefix(pre, rest, i + 1);
        }
    } else {
        assert(s[i] == '\n');
    }
}

proof fn lemma_lines_join_from(pre: Seq<char>, rest: Seq<char>, i: int)
    requires
        0 <= i <= pre.len(),
    ensures
        lines_from(pre + seq!['\n'] + rest, i) == lines_from(pre, i) + lines_of(rest),
    decreases pre.len() - i,
{
    let p = pre + seq!['\n'];
    let s = p + rest;
    lemma_line_end_prefix(pre, rest, i);
    lemma_line_end(pre, i);
    let j = line_end(pre, i);
    assert(s.subrange(i, j) =~= pre.subrange(i, j));
    if j < pre.len() {
        lemma_lines_join_from(pre, rest, j + 1);
        assert(lines_from(s, i) =~= lines_from(pre, i) + lines_of(rest));
    } else {
        lemma_lines_shift(p, rest, 0);
        assert(lines_from(s, i) =~= lines_from(pre, i) + lines_of(rest));
    }
}

/// The lines of `pre`, a newline, then `rest` are those of `pre`, then those of `rest`.
pub proof fn lemma_lines_join(pre: Seq<char>, rest: Seq<char>)
    ensures
        lines_of(pre + seq!['\n'] + rest) == lines_of(pre) + lines_of(rest),
{
    lemma_lines_join_from(pre, rest, 0);
}

/// Text without a newline is one line.
pub proof fn lemma_lines_single(x: Seq<char>)
    requires
        !x.contains('\n'),
    ensures
        lines_of(x) == seq![x],
{
    lemma_line_end(x, 0);
    if line_end(x, 0) < x.len() {
        assert(x[line_end(x, 0)] == '\n');
    }
    assert(x.subrange(0, x.len() as int) =~= x);
}

/// A text's mesh is that of the text before a newline followed by that of the text after it.
pub proof fn lemma_text_join(pre: Seq<char>, rest: Seq<char>)
    ensures
        text_positions(pre + seq!['\n'] + rest) == text_positions(pre) + text_positions(rest),
        text_indices(pre + seq!['\n'] + rest) == text_indices(pre) + text_indices(rest),
{
    lemma_lines_join(pre, rest);
    lemma_mesh_append(lines_of(pre), lines_of(rest));
}

proof fn lemma_mesh_of_line(x: Seq<char>)
    requires
        !x.contains('\n'),
    ensures
        text_positions(x) == line_positions(tokens(x)),
        text_indices(x) == line_indices(tokens(x)),
{
    lemma_lines_single(x);
    let ls = seq![x];
    assert(ls.drop_last() =~= Seq::<Seq<char>>::empty());
    assert(ls.last() == x);
    assert(mesh_positions(Seq::<Seq<char>>::empty()) =~= Seq::<Seq<Seq<char>>>::empty());
    assert(mesh_indices(Seq::<Seq<char>>::empty()) =~= Seq::<int>::empty());
    assert(mesh_positions(ls) =~= line_positions(tokens(x)));
    assert(mesh_indices(ls) =~= line_indices(tokens(x)));
}

/// Replacing a line by one with the same words, at the start, in the
/// middle or at the end of a text, leaves the mesh as it was.
pub proof fn lemma_same_words_same_mesh(pre: Seq<char>, l1: Seq<char>, l2: Seq<char>, post: Seq<char>)
    requires
        !l1.contains('\n'),
        !l2.contains('\n'),
        tokens(l1) == tokens(l2),
    ensures
        text_positions(pre + seq!['\n'] + l1 + seq!['\n'] + post) == text_positions(pre + seq!['\n'] + l2 + seq!['\n'] + post),
        text_indices(pre + seq!['\n'] + l1 + seq!['\n'] + post) == text_indices(pre + seq!['\n'] + l2 + seq!['\n'] + post),
        text_positions(l1 + seq!['\n'] + post) == text_positions(l2 + seq!['\n'] + post),
        text_indices(l1 + seq!['\n'] + post) == text_indices(l2 + seq!['\n'] + post),
        text_positions(pre + seq!['\n'] + l1) == text_positions(pre + seq!['\n'] + l2),
        text_indices(pre + seq!['\n'] + l1) == text_indices(pre + seq!['\n'] + l2),
{
    let nl = seq!['\n'];
    lemma_mesh_of_line(l1);
    lemma_mesh_of_line(l2);
    lemma_text_join(l1, post);
    lemma_text_join(l2, post);
    assert(pre + nl + l1 + nl + post =~= pre + nl + (l1 + nl + post));
    assert(pre + nl + l2 + nl + post =~= pre + nl + (l2 + nl + post));
    lemma_text_join(pre, l1 + nl + post);
    lemma_text_join(pre, l2 + nl + post);
    lemma_text_join(pre, l1);
    lemma_text_join(pre, l2);
}

/// Taking out a blank line, or one whose first word starts with `#`, at
/// the start, in the middle or at the end of a text leaves the mesh as it was.
pub proof fn lemma_comment_line_removed(pre: Seq<char>, c: Seq<char>, post: Seq<char>)
    requires
        !c.contains('\n'),
        tokens(c).len() == 0 || (tokens(c)[0].len() > 0 && tokens(c)[0][0] == '#'),
    ensures
        text_positions(pre + seq!['\n'] + c + seq!['\n'] + post) == text_positions(pre + seq!['\n'] + post),
        text_indices(pre + seq!['\n'] + c + seq!['\n'] + post) == text_indices(pre + seq!['\n'] + post),
        text_positions(c + seq!['\n'] + post) == text_positions(post),
        text_indices(c + seq!['\n'] + post) == text_indices(post),
        text_positions(pre + seq!['\n'] + c) == text_positions(pre),
        text_indices(pre + seq!['\n'] + c) == text_indices(pre),
{
    let nl = seq!['\n'];
    lemma_comment_adds_nothing(c);
    lemma_mesh_of_line(c);
    lemma_text_join(c, post);
    assert(text_positions(c) + text_positions(post) =~= text_positions(post));
    assert(text_indices(c) + text_indices(post) =~= text_indices(post));
    assert(pre + nl + c + nl + post =~= pre + nl + (c + nl + post));
    lemma_text_join(pre, c + nl + post);
    lemma_text_join(pre, post);
    lemma_text_join(pre, c);
    assert(text_positions(pre) + text_positions(c) =~= text_positions(pre));
    assert(text_indices(pre) + text_indices(c) =~= text_indices(pre));
}

proof fn lemma_run_end_shift(p: Seq<char>, r: Seq<char>, i: int)
    requires
        0 <= i <= r.len(),
    ensures
        run_end(p + r, p.len() + i) == p.len() + run_end(r, i),
    decreases r.len() - i,
{
    let s = p + r;
    if i < r.len() {
        assert(s[p.len() + i] == r[i]);
        if !white_space(r[i]) {
            lemma_run_end_shift(p, r, i + 1);
        }
    }
}

proof fn lemma_tokens_shift(p: Seq<char>, r: Seq<char>, i: int)
    requires
        0 <= i <= r.len(),
    ensures
        tokens_from(p + r, p.len() + i) == tokens_from(r, i),
    decreases r.len() - i,
{
    let s = p + r;
    if i < r.len() {
        assert(s[p.len() + i] == r[i]);
        if white_space(r[i]) {
            lemma_tokens_shift(p, r, i + 1);
        } else {
            lemma_run_end_shift(p, r, i);
            lemma_run_end(r, i);
            let j = run_end(r, i);
            assert(s.subrange(p.len() + i, p.len() + j) =~= r.subrange(i, j));
            lemma_tokens_shift(p, r, j);
        }
    }
}

proof fn lemma_tokens_skip_white(s: Seq<char>, i: int, j: int)
    requires
        0 <= i <= j <= s.len(),
        forall|k: int| i <= k < j ==> white_space(#[trigger] s[k]),
    ensures
        tokens_from(s, i) == tokens_from(s, j),
    decreases j - i,
{
    if i < j {
        lemma_tokens_skip_white(s, i + 1, j);
    }
}

proof fn lemma_run_end_suffix(l: Seq<char>, w: Seq<char>, i: int)
    requires
        0 <= i <= l.len(),
        all_white(w),
    ensures
        run_end(l + w, i) == run_end(l, i),
    decreases l.len() - i,
{
    let s = l + w;
    if i < l.len() {
        assert(s[i] == l[i]);
        if !white_space(l[i]) {
            lemma_run_end_suffix(l, w, i + 1);
        }
    } else if w.len() > 0 {
        assert(s[i] == w[0]);
    }
}

proof fn lemma_tokens_suffix(l: Seq<char>, w: Seq<char>, i: int)
    requires
        0 <= i <= l.len(),
        all_white(w),
    ensures
        tokens_from(l + w, i) == tokens_from(l, i),
    decreases l.len() - i,
{
    let s = l + w;
    if i < l.len() {
        assert(s[i] == l[i]);
        if white_space(l[i]) {
            lemma_tokens_suffix(l, w, i + 1);
        } else {
            lemma_run_end_suffix(l, w, i);
            lemma_run_end(l, i);
            let j = run_end(l, i);
            assert(s.subrange(i, j) =~= l.subrange(i, j));
            lemma_tokens_suffix(l, w, j);
        }
    } else {
        assert forall|k: int| i <= k < s.len() implies white_space(#[trigger] s[k]) by {
            assert(s[k] == w[k - l.len()]);
        }
        lemma_tokens_skip_white(s, i, s.len() as int);
    }
}

/// White space added before or after the words of a line does not change them.
pub proof fn lemma_tokens_trim(w1: Seq<char>, l: Seq<char>, w2: Seq<char>)
    requires
        all_white(w1),
        all_white(w2),
    ensures
        tokens(w1 + l + w2) == tokens(l),
{
    let s = w1 + (l + w2);
    assert(w1 + l + w2 =~= s);
    assert forall|k: int| 0 <= k < w1.len() implies white_space(#[trigger] s[k]) by {
        assert(s[k] == w1[k]);
    }
    lemma_tokens_skip_white(s, 0, w1.len() as int);
    lemma_tokens_shift(w1, l + w2, 0);
    lemma_tokens_suffix(l, w2, 0);
}

/// Changing the white space before or after the words of a line, at the
/// start, in the middle or at the end of a text, leaves the mesh as it was.
pub proof fn lemma_line_padding_ignored(pre: Seq<char>, w1: Seq<char>, l: Seq<char>, w2: Seq<char>, post: Seq<char>)
    requires
        all_white(w1),
        all_white(w2),
        !w1.contains('\n'),
        !w2.contains('\n'),
        !l.contains('\n'),
    ensures
        text_positions(pre + seq!['\n'] + (w1 + l + w2) + seq!['\n'] + post) == text_positions(pre + seq!['\n'] + l + seq!['\n'] + post),
        text_indices(pre + seq!['\n'] + (w1 + l + w2) + seq!['\n'] + post) == text_indices(pre + seq!['\n'] + l + seq!['\n'] + post),
        text_positions((w1 + l + w2) + seq!['\n'] + post) == text_positions(l + seq!['\n'] + post),
        text_indices((w1 + l + w2) + seq!['\n'] + post) == text_indices(l + seq!['\n'] + post),
        text_positions(pre + seq!['\n'] + (w1 + l + w2)) == text_positions(pre + seq!['\n'] + l),
        text_indices(pre + seq!['\n'] + (w1 + l + w2)) == text_indices(pre + seq!['\n'] + l),
{
    let padded = w1 + l + w2;
    assert(!padded.contains('\n')) by {
        if padded.contains('\n') {
            let k = choose|k: int| 0 <= k < padded.len() && padded[k] == '\n';
            if k < w1.len() {
                assert(w1[k] == padded[k]);
            } else if k < w1.len() + l.len() {
                assert(l[k - w1.len()] == padded[k]);
            } else {
                assert(w2[k - w1.len() - l.len()] == padded[k]);
            }
        }
    }
    lemma_tokens_trim(w1, l, w2);
    lemma_same_words_same_mesh(pre, padded, l, post);
}

/// A single ASCII digit `'0'` to `'9'` reads as its value.
pub proof fn lemma_index_single_digit(c: char)
    requires
        0x30 <= c as int <= 0x39,
    ensures
        index_value(seq![c]) == Some(c as int - 0x30),
{
    let s = seq![c];
    assert(unsigned_digits(s) == s);
    assert(s.drop_last() =~= Seq::<char>::empty());
    assert(s.last() == c);
    assert(digits_value(Seq::<char>::empty()) == 0);
    assert(digits_value(s) == c as int - 0x30);
    assert(all_digits(s));
}

/// Appending an ASCII digit `'0'` to `'9'` to a readable index gives ten
/// times its value plus the digit's, as long as that fits in `usize`.
pub proof fn lemma_index_append_digit(s: Seq<char>, c: char, v: int)
    requires
        index_value(s) == Some(v),
        0x30 <= c as int <= 0x39,
        10 * v + (c as int - 0x30) <= usize::MAX,
    ensures
        index_value(s.push(c)) == Some(10 * v + (c as int - 0x30)),
{
    let d = unsigned_digits(s);
    let t = s.push(c);
    if s.len() > 1 && s[0] == '+' {
        assert(unsigned_digits(t) =~= d.push(c));
    } else {
        assert(s.len() >= 1);
        assert(s[0] != '+' || s.len() == 1);
        if s.len() == 1 && s[0] == '+' {
            assert(!is_digit(d[0]));
        }
        assert(s[0] != '+');
        assert(unsigned_digits(t) =~= d.push(c));
    }
    let e = d.push(c);
    assert(e.drop_last() =~= d);
    assert(e.last() == c);
    assert forall|m: int| 0 <= m < e.len() implies is_digit(#[trigger] e[m]) by {
        if m < d.len() {
            assert(e[m] == d[m]);
        }
    }
}

/// A `'+'` before a readable index that has none does not change its value.
pub proof fn lemma_index_plus_sign(s: Seq<char>)
    requires
        index_value(s) is Some,
        s[0] != '+',
    ensures
        index_value(seq!['+'] + s) == index_value(s),
{
    let t = seq!['+'] + s;
    assert(s.len() >= 1);
    assert(t.drop_first() =~= s);
    assert(t[0] == '+');
}

/// A word with a character other than an ASCII digit, outside a leading
/// `'+'` that has digits after it, reads as no index.
pub proof fn lemma_index_rejects(s: Seq<char>, k: int)
    requires
        0 <= k < s.len(),
        !(0x30 <= s[k] as int <= 0x39),
        !(k == 0 && s[0] == '+' && s.len() > 1),
    ensures
        index_value(s) is None,
{
    let d = unsigned_digits(s);
    if s.len() > 1 && s[0] == '+' {
        assert(d[k - 1] == s[k]);
        assert(!is_digit(d[k - 1]));
    } else {
        assert(d[k] == s[k]);
        assert(!is_digit(d[k]));
    }
}

} // verus!
