//! Characters and strings, as the library reads and builds them.

use vstd::prelude::*;

verus! {

broadcast use vstd::string::group_string_axioms;

/// The characters of `text`, in order.
pub fn chars_of(text: &str) -> (chars: Vec<char>)
    ensures
        chars@ == text@,
{
    let mut chars: Vec<char> = Vec::new();
    for c in iter: text.chars()
        invariant
            iter.seq() == text@,
            chars@ == iter.seq().take(iter.index() as int),
    {
        chars.push(c);
    }
    chars
}

/// Appends one character to a string: `String::push`.
#[verifier::external_body]
fn push_char(text: &mut String, c: char)
    ensures
        final(text)@ == old(text)@.push(c),
{
    text.push(c);
}

/// The string made of the first `len` of `chars`, in order.
pub fn prefix_string(chars: &[char], len: usize) -> (text: String)
    requires
        len <= chars@.len(),
    ensures
        text@ == chars@.take(len as int),
{
    let mut text = String::new();
    let mut i: usize = 0;
    while i < len
        invariant
            i <= len <= chars@.len(),
            text@ == chars@.take(i as int),
        decreases len - i,
    {
        push_char(&mut text, chars[i]);
        assert(chars@.take(i as int).push(chars@[i as int]) =~= chars@.take(i + 1));
        i = i + 1;
    }
    text
}

/// The string made of `chars`, in order.
pub fn string_of(chars: &[char]) -> (text: String)
    ensures
        text@ == chars@,
{
    let text = prefix_string(chars, chars.len());
    assert(chars@.take(chars@.len() as int) =~= chars@);
    text
}

/// Whether `fits` can answer `answer` for a string that reads `text`.
pub open spec fn answers<F: Fn(&str) -> bool>(fits: F, text: Seq<char>, answer: bool) -> bool {
    exists|t: &str| t@ == text && call_ensures(fits, (t,), answer)
}

/// Asks `fits` about `text`.
pub fn probe<F: Fn(&str) -> bool>(fits: &F, text: &str) -> (r: bool)
    requires
        forall|t: &str| call_requires(*fits, (t,)),
    ensures
        answers(*fits, text@, r),
{
    let r = fits(text);
    assert(call_ensures(*fits, (text,), r));
    r
}

/// Unicode's White_Space property: what `char::is_whitespace` tests.
pub open spec fn is_white_space(c: char) -> bool {
    let u = c as u32;
    ||| 0x09 <= u <= 0x0d
    ||| u == 0x20
    ||| u == 0x85
    ||| u == 0xa0
    ||| u == 0x1680
    ||| 0x2000 <= u <= 0x200a
    ||| u == 0x2028
    ||| u == 0x2029
    ||| u == 0x202f
    ||| u == 0x205f
    ||| u == 0x3000
}

/// Whether `c` has Unicode's White_Space property, as `char::is_whitespace`
/// tells.
pub(crate) fn char_is_whitespace(c: char) -> (r: bool)
    ensures
        r == is_white_space(c),
{
    let u = c as u32;
    (0x09 <= u && u <= 0x0d) || u == 0x20 || u == 0x85 || u == 0xa0 || u == 0x1680 || (0x2000 <= u
        && u <= 0x200a) || u == 0x2028 || u == 0x2029 || u == 0x202f || u == 0x205f || u == 0x3000
}

/// `text` without the white space that ends it: what `str::trim_end` gives.
pub open spec fn trim_end(text: Seq<char>) -> Seq<char>
    decreases text.len(),
{
    if text.len() > 0 && is_white_space(text.last()) {
        trim_end(text.drop_last())
    } else {
        text
    }
}

/// `text` without the white space that starts it: what `str::trim_start` gives.
pub open spec fn trim_start(text: Seq<char>) -> Seq<char>
    decreases text.len(),
{
    if text.len() > 0 && is_white_space(text.first()) {
        trim_start(text.drop_first())
    } else {
        text
    }
}

/// `text` without white space at either end: what `str::trim` gives.
pub open spec fn trim(text: Seq<char>) -> Seq<char> {
    trim_end(trim_start(text))
}

/// How many of the first `len` characters of `chars` stay once the white
/// space ending them is cut.
pub fn trimmed_end_len(chars: &[char], len: usize) -> (end: usize)
    requires
        len <= chars@.len(),
    ensures
        end <= len,
        chars@.take(end as int) == trim_end(chars@.take(len as int)),
{
    let mut end = len;
    while end > 0 && char_is_whitespace(chars[end - 1])
        invariant
            end <= len <= chars@.len(),
            trim_end(chars@.take(end as int)) == trim_end(chars@.take(len as int)),
        decreases end,
    {
        assert(chars@.take(end as int).drop_last() =~= chars@.take(end - 1));
        end = end - 1;
    }
    end
}

/// The decimal digit `d`.
pub open spec fn digit(d: int) -> char {
    seq!['0', '1', '2', '3', '4', '5', '6', '7', '8', '9'][d]
}

/// `n` written in decimal, without leading zeros.
pub open spec fn decimal(n: nat) -> Seq<char>
    decreases n,
{
    if n < 10 {
        seq![digit(n as int)]
    } else {
        decimal(n / 10).push(digit((n % 10) as int))
    }
}

proof fn lemma_digit(d: int)
    requires
        0 <= d < 10,
    ensures
        digit(d) as int == '0' as int + d,
        is_ascii_digit(digit(d)),
{
    let ds = seq!['0', '1', '2', '3', '4', '5', '6', '7', '8', '9'];
    assert(digit(d) == ds[d]);
    if d == 0 {
        assert(ds[0] == '0');
    } else if d == 1 {
        assert(ds[1] == '1');
    } else if d == 2 {
        assert(ds[2] == '2');
    } else if d == 3 {
        assert(ds[3] == '3');
    } else if d == 4 {
        assert(ds[4] == '4');
    } else if d == 5 {
        assert(ds[5] == '5');
    } else if d == 6 {
        assert(ds[6] == '6');
    } else if d == 7 {
        assert(ds[7] == '7');
    } else if d == 8 {
        assert(ds[8] == '8');
    } else {
        assert(ds[9] == '9');
    }
}

/// `decimal(n)` is made of digits, starts with no `0` unless it is `0`
/// itself, and reads back as `n`.
pub proof fn lemma_decimal_reads_back(n: nat)
    ensures
        decimal(n).len() >= 1,
        forall|i: int| 0 <= i < decimal(n).len() ==> is_ascii_digit(#[trigger] decimal(n)[i]),
        n >= 10 ==> decimal(n)[0] != '0',
        decimal_value(decimal(n)) == n,
    decreases n,
{
    if n < 10 {
        lemma_digit(n as int);
        let d = decimal(n);
        assert(d =~= seq![digit(n as int)]);
        assert(d.drop_last() =~= Seq::<char>::empty());
        assert(decimal_value(Seq::<char>::empty()) == 0);
        assert(decimal_value(d) == decimal_value(d.drop_last()) * 10 + (d.last() as int
            - '0' as int));
    } else {
        lemma_decimal_reads_back(n / 10);
        lemma_digit((n % 10) as int);
        let head = decimal(n / 10);
        assert(decimal(n).drop_last() =~= head);
        assert forall|i: int| 0 <= i < decimal(n).len() implies is_ascii_digit(
            #[trigger] decimal(n)[i],
        ) by {
            if i < head.len() {
                assert(decimal(n)[i] == head[i]);
            }
        }
        if n / 10 < 10 {
            lemma_digit((n / 10) as int);
            assert(head =~= seq![digit((n / 10) as int)]);
        }
        assert(decimal(n)[0] == head[0]);
        assert(decimal(n).last() == digit((n % 10) as int));
        assert(n == (n / 10) * 10 + n % 10) by (nonlinear_arith);
        assert(decimal_value(decimal(n)) == decimal_value(head) * 10 + (digit((n % 10) as int) as int
            - '0' as int));
    }
}

/// `two_digits(n)`, for `n` under a hundred, is two digits reading back as
/// `n`.
pub proof fn lemma_two_digits_read_back(n: nat)
    requires
        n < 100,
    ensures
        two_digits(n).len() == 2,
        is_ascii_digit(two_digits(n)[0]) && is_ascii_digit(two_digits(n)[1]),
        decimal_value(two_digits(n)) == n,
{
    lemma_decimal_reads_back(n);
    if n < 10 {
        lemma_digit(n as int);
        let t = two_digits(n);
        assert(t =~= seq!['0', digit(n as int)]);
        assert(t.drop_last() =~= seq!['0']);
        assert(seq!['0'].drop_last() =~= Seq::<char>::empty());
        assert(decimal_value(Seq::<char>::empty()) == 0);
        assert(decimal_value(seq!['0']) == 0);
        assert(decimal_value(t) == decimal_value(t.drop_last()) * 10 + (t.last() as int - '0' as int));
    } else {
        lemma_decimal_reads_back(n / 10);
        assert(decimal(n / 10).len() == 1);
    }
}

/// `n` written in decimal on at least two digits: the `{:02}` format.
pub open spec fn two_digits(n: nat) -> Seq<char> {
    if n < 10 {
        seq!['0'] + decimal(n)
    } else {
        decimal(n)
    }
}

fn digit_char(d: u64) -> (c: char)
    requires
        d < 10,
    ensures
        c == digit(d as int),
{
    let digits = ['0', '1', '2', '3', '4', '5', '6', '7', '8', '9'];
    assert(digits@ =~= seq!['0', '1', '2', '3', '4', '5', '6', '7', '8', '9']);
    digits[d as usize]
}

/// `n` written in decimal.
pub fn decimal_string(n: u64) -> (text: String)
    ensures
        text@ == decimal(n as nat),
    decreases n,
{
    if n < 10 {
        let mut text = String::new();
        push_char(&mut text, digit_char(n));
        assert(text@ =~= decimal(n as nat));
        text
    } else {
        let mut text = decimal_string(n / 10);
        push_char(&mut text, digit_char(n % 10));
        text
    }
}

/// `n` written in decimal on at least two digits.
pub fn two_digit_string(n: u64) -> (text: String)
    ensures
        text@ == two_digits(n as nat),
{
    if n < 10 {
        let mut text = String::new();
        push_char(&mut text, '0');
        let digits = decimal_string(n);
        text.append(digits.as_str());
        text
    } else {
        decimal_string(n)
    }
}

/// The views of `strings`, in order.
pub open spec fn views(strings: Seq<String>) -> Seq<Seq<char>> {
    strings.map_values(|s: String| s@)
}

/// `line` without the carriage return that may end it.
pub open spec fn strip_cr(line: Seq<char>) -> Seq<char> {
    if line.len() > 0 && line.last() == '\r' {
        line.drop_last()
    } else {
        line
    }
}

/// Reading `text` one character at a time for its lines: the lines ended
/// so far, and the one still open.
pub open spec fn line_state(text: Seq<char>) -> (Seq<Seq<char>>, Seq<char>)
    decreases text.len(),
{
    if text.len() == 0 {
        (Seq::empty(), Seq::empty())
    } else {
        let (done, open) = line_state(text.drop_last());
        if text.last() == '\n' {
            (done.push(strip_cr(open)), Seq::empty())
        } else {
            (done, open.push(text.last()))
        }
    }
}

/// The lines of `text`, as `str::lines` gives them: split at `\n`, each
/// without its line ending (`\n` or `\r\n`); a final line ending adds no
/// empty line.
pub open spec fn lines(text: Seq<char>) -> Seq<Seq<char>> {
    let (done, open) = line_state(text);
    if open.len() > 0 {
        done.push(open)
    } else {
        done
    }
}

/// Reading `text` one character at a time for its words: the words ended
/// so far, and the one still open.
pub open spec fn word_state(text: Seq<char>) -> (Seq<Seq<char>>, Seq<char>)
    decreases text.len(),
{
    if text.len() == 0 {
        (Seq::empty(), Seq::empty())
    } else {
        let (done, open) = word_state(text.drop_last());
        if is_white_space(text.last()) {
            if open.len() > 0 {
                (done.push(open), Seq::empty())
            } else {
                (done, Seq::empty())
            }
        } else {
            (done, open.push(text.last()))
        }
    }
}

/// The words of `text`, as `str::split_whitespace` gives them: its longest
/// runs of characters that are not white space, in order.
pub open spec fn words(text: Seq<char>) -> Seq<Seq<char>> {
    let (done, open) = word_state(text);
    if open.len() > 0 {
        done.push(open)
    } else {
        done
    }
}

/// The lines of `text`.
pub fn lines_of(text: &str) -> (found: Vec<String>)
    ensures
        views(found@) == lines(text@),
{
    let chars = chars_of(text);
    let mut found: Vec<String> = Vec::new();
    let mut open: Vec<char> = Vec::new();
    let mut i: usize = 0;
    while i < chars.len()
        invariant
            chars@ == text@,
            i <= chars@.len(),
            (views(found@), open@) == line_state(chars@.take(i as int)),
        decreases chars@.len() - i,
    {
        assert(chars@.take(i + 1).drop_last() =~= chars@.take(i as int));
        let c = chars[i];
        if c == '\n' {
            let mut len = open.len();
            if len > 0 && open[len - 1] == '\r' {
                len = len - 1;
            }
            let line = prefix_string(open.as_slice(), len);
            proof {
                assert(line@ =~= strip_cr(open@));
            }
            found.push(line);
            open = Vec::new();
        } else {
            open.push(c);
        }
        assert(views(found@) =~= line_state(chars@.take(i + 1)).0);
        assert(open@ =~= line_state(chars@.take(i + 1)).1);
        i = i + 1;
    }
    assert(chars@.take(chars@.len() as int) =~= chars@);
    if open.len() > 0 {
        let line = string_of(open.as_slice());
        found.push(line);
    }
    assert(views(found@) =~= lines(text@));
    found
}

/// The words of `text`.
pub fn words_of(text: &str) -> (found: Vec<String>)
    ensures
        views(found@) == words(text@),
{
    let chars = chars_of(text);
    let mut found: Vec<String> = Vec::new();
    let mut open: Vec<char> = Vec::new();
    let mut i: usize = 0;
    while i < chars.len()
        invariant
            chars@ == text@,
            i <= chars@.len(),
            (views(found@), open@) == word_state(chars@.take(i as int)),
        decreases chars@.len() - i,
    {
        assert(chars@.take(i + 1).drop_last() =~= chars@.take(i as int));
        let c = chars[i];
        if char_is_whitespace(c) {
            if open.len() > 0 {
                let word = string_of(open.as_slice());
                found.push(word);
            }
            open = Vec::new();
        } else {
            open.push(c);
        }
        assert(views(found@) =~= word_state(chars@.take(i + 1)).0);
        assert(open@ =~= word_state(chars@.take(i + 1)).1);
        i = i + 1;
    }
    assert(chars@.take(chars@.len() as int) =~= chars@);
    if open.len() > 0 {
        let word = string_of(open.as_slice());
        found.push(word);
    }
    assert(views(found@) =~= words(text@));
    found
}

/// Whether `text` reads `other`.
pub fn same_text(text: &str, other: &str) -> (same: bool)
    ensures
        same == (text@ == other@),
{
    text.to_owned() == other.to_owned()
}

/// Whether `text` starts with `prefix`.
pub fn starts_with(text: &[char], prefix: &str) -> (starts: bool)
    ensures
        starts == prefix@.is_prefix_of(text@),
{
    let pattern = chars_of(prefix);
    if pattern.len() > text.len() {
        return false;
    }
    let mut i: usize = 0;
    while i < pattern.len()
        invariant
            pattern@ == prefix@,
            pattern@.len() <= text@.len(),
            i <= pattern@.len(),
            forall|j: int| 0 <= j < i ==> pattern@[j] == text@[j],
        decreases pattern@.len() - i,
    {
        if pattern[i] != text[i] {
            return false;
        }
        i = i + 1;
    }
    true
}

/// Whether `text` ends with `suffix`.
pub fn ends_with(text: &[char], suffix: &str) -> (ends: bool)
    ensures
        ends == suffix@.is_suffix_of(text@),
{
    let pattern = chars_of(suffix);
    if pattern.len() > text.len() {
        return false;
    }
    let offset = text.len() - pattern.len();
    let mut i: usize = 0;
    while i < pattern.len()
        invariant
            pattern@ == suffix@,
            offset + pattern@.len() == text@.len(),
            text@.len() == text.len(),
            i <= pattern@.len(),
            forall|j: int| 0 <= j < i ==> pattern@[j] == text@[offset + j],
        decreases pattern@.len() - i,
    {
        if pattern[i] != text[offset + i] {
            return false;
        }
        i = i + 1;
    }
    true
}

/// The first position at or after `from` where `text` holds `c`.
pub open spec fn find_char_from(text: Seq<char>, c: char, from: int) -> Option<int>
    decreases text.len() - from,
{
    if from < 0 || from >= text.len() {
        None
    } else if text[from] == c {
        Some(from)
    } else {
        find_char_from(text, c, from + 1)
    }
}

/// `find_char_from` finds the first `c` at or after `from`, and nothing when
/// there is none.
pub proof fn lemma_find_char_from(text: Seq<char>, c: char, from: int)
    requires
        0 <= from,
    ensures
        find_char_from(text, c, from) matches Some(i) ==> from <= i < text.len() && text[i] == c
            && forall|j: int| from <= j < i ==> text[j] != c,
        find_char_from(text, c, from) is None ==> forall|j: int|
            from <= j < text.len() ==> text[j] != c,
    decreases text.len() - from,
{
    if from < text.len() && text[from] != c {
        lemma_find_char_from(text, c, from + 1);
    }
}

/// The first position where `text` holds `c`.
pub fn find_char(text: &[char], c: char) -> (found: Option<usize>)
    ensures
        found matches Some(i) ==> i < text@.len() && text@[i as int] == c && find_char_from(
            text@,
            c,
            0,
        ) == Some(i as int),
        found is None ==> find_char_from(text@, c, 0) is None,
{
    let mut i: usize = 0;
    while i < text.len()
        invariant
            i <= text@.len(),
            find_char_from(text@, c, i as int) == find_char_from(text@, c, 0),
        decreases text@.len() - i,
    {
        if text[i] == c {
            return Some(i);
        }
        i = i + 1;
    }
    None
}

/// The characters of `text` from position `from` on.
pub fn suffix_string(text: &[char], from: usize) -> (rest: String)
    requires
        from <= text@.len(),
    ensures
        rest@ == text@.skip(from as int),
{
    let mut rest = String::new();
    let mut i: usize = from;
    while i < text.len()
        invariant
            from <= i <= text@.len(),
            rest@ == text@.subrange(from as int, i as int),
        decreases text@.len() - i,
    {
        push_char(&mut rest, text[i]);
        assert(text@.subrange(from as int, i as int).push(text@[i as int]) =~= text@.subrange(
            from as int,
            i + 1,
        ));
        i = i + 1;
    }
    assert(text@.subrange(from as int, text@.len() as int) =~= text@.skip(from as int));
    rest
}

/// `text` with every leading repetition of `pattern` removed: what
/// `str::trim_start_matches` gives for a non-empty pattern.
pub open spec fn trim_start_matches(text: Seq<char>, pattern: Seq<char>) -> Seq<char>
    decreases text.len(),
{
    if pattern.len() > 0 && pattern.is_prefix_of(text) {
        trim_start_matches(text.skip(pattern.len() as int), pattern)
    } else {
        text
    }
}

/// Trimming a pattern from the start leaves an end of the text that no
/// longer starts with the pattern.
pub proof fn lemma_trim_start_matches(text: Seq<char>, pattern: Seq<char>)
    requires
        pattern.len() > 0,
    ensures
        !pattern.is_prefix_of(trim_start_matches(text, pattern)),
        trim_start_matches(text, pattern).len() <= text.len(),
        text.skip(text.len() - trim_start_matches(text, pattern).len()) == trim_start_matches(
            text,
            pattern,
        ),
    decreases text.len(),
{
    if pattern.is_prefix_of(text) {
        let rest = text.skip(pattern.len() as int);
        lemma_trim_start_matches(rest, pattern);
        let t = trim_start_matches(text, pattern);
        assert(text.skip(text.len() - t.len()) =~= rest.skip(rest.len() - t.len()));
    } else {
        assert(text.skip(0) =~= text);
    }
}

/// Trimming a pattern from the end leaves a start of the text that no
/// longer ends with the pattern.
pub proof fn lemma_trim_end_matches(text: Seq<char>, pattern: Seq<char>)
    requires
        pattern.len() > 0,
    ensures
        !pattern.is_suffix_of(trim_end_matches(text, pattern)),
        trim_end_matches(text, pattern).len() <= text.len(),
        text.take(trim_end_matches(text, pattern).len() as int) == trim_end_matches(text, pattern),
    decreases text.len(),
{
    if pattern.is_suffix_of(text) {
        let rest = text.take(text.len() - pattern.len());
        lemma_trim_end_matches(rest, pattern);
        let t = trim_end_matches(text, pattern);
        assert(text.take(t.len() as int) =~= rest.take(t.len() as int));
    } else {
        assert(text.take(text.len() as int) =~= text);
    }
}

/// `text` with every trailing repetition of `pattern` removed: what
/// `str::trim_end_matches` gives for a non-empty pattern.
pub open spec fn trim_end_matches(text: Seq<char>, pattern: Seq<char>) -> Seq<char>
    decreases text.len(),
{
    if pattern.len() > 0 && pattern.is_suffix_of(text) {
        trim_end_matches(text.take(text.len() - pattern.len()), pattern)
    } else {
        text
    }
}

/// `text` with every leading repetition of `pattern` removed.
pub fn trimmed_start_matches(text: &[char], pattern: &str) -> (rest: String)
    ensures
        rest@ == trim_start_matches(text@, pattern@),
{
    let pattern_chars = chars_of(pattern);
    let n = pattern_chars.len();
    let mut from: usize = 0;
    assert(text@.skip(0) =~= text@);
    if n > 0 {
        loop
            invariant
                pattern_chars@ == pattern@,
                n == pattern@.len(),
                n > 0,
                from <= text@.len(),
                trim_start_matches(text@.skip(from as int), pattern@) == trim_start_matches(
                    text@,
                    pattern@,
                ),
            ensures
                from <= text@.len(),
                trim_start_matches(text@, pattern@) == text@.skip(from as int),
            decreases text@.len() - from,
        {
            let rest = suffix_chars(text, from);
            if starts_with(rest.as_slice(), pattern) {
                assert(text@.skip(from as int).skip(n as int) =~= text@.skip(from + n));
                assert(from + n <= text@.len());
                assert(text@.len() == text.len());
                from = from + n;
            } else {
                break;
            }
        }
    }
    suffix_string(text, from)
}

/// The characters of `text` from position `from` on.
pub fn suffix_chars(text: &[char], from: usize) -> (rest: Vec<char>)
    requires
        from <= text@.len(),
    ensures
        rest@ == text@.skip(from as int),
{
    let mut rest: Vec<char> = Vec::new();
    let mut i: usize = from;
    while i < text.len()
        invariant
            from <= i <= text@.len(),
            rest@ == text@.subrange(from as int, i as int),
        decreases text@.len() - i,
    {
        rest.push(text[i]);
        i = i + 1;
    }
    rest
}

/// `text` with every trailing repetition of `pattern` removed.
pub fn trimmed_end_matches(text: &[char], pattern: &str) -> (rest: String)
    ensures
        rest@ == trim_end_matches(text@, pattern@),
{
    let pattern_chars = chars_of(pattern);
    let n = pattern_chars.len();
    let mut end: usize = text.len();
    assert(text@.take(text@.len() as int) =~= text@);
    if n > 0 {
        loop
            invariant
                pattern_chars@ == pattern@,
                n == pattern@.len(),
                n > 0,
                end <= text@.len(),
                trim_end_matches(text@.take(end as int), pattern@) == trim_end_matches(
                    text@,
                    pattern@,
                ),
            ensures
                end <= text@.len(),
                trim_end_matches(text@, pattern@) == text@.take(end as int),
            decreases end,
        {
            let head = prefix_chars(text, end);
            if ends_with(head.as_slice(), pattern) {
                assert(text@.take(end as int).take(end - n) =~= text@.take(end - n));
                end = end - n;
            } else {
                break;
            }
        }
    }
    prefix_string(text, end)
}

/// The first `len` characters of `text`.
pub fn prefix_chars(text: &[char], len: usize) -> (head: Vec<char>)
    requires
        len <= text@.len(),
    ensures
        head@ == text@.take(len as int),
{
    let mut head: Vec<char> = Vec::new();
    let mut i: usize = 0;
    while i < len
        invariant
            i <= len <= text@.len(),
            head@ == text@.take(i as int),
        decreases len - i,
    {
        head.push(text[i]);
        assert(text@.take(i as int).push(text@[i as int]) =~= text@.take(i + 1));
        i = i + 1;
    }
    head
}

/// `parts` joined end to end with `separator` between two of them.
pub open spec fn join(parts: Seq<Seq<char>>, separator: Seq<char>) -> Seq<char>
    decreases parts.len(),
{
    if parts.len() == 0 {
        Seq::empty()
    } else if parts.len() == 1 {
        parts[0]
    } else {
        join(parts.drop_last(), separator) + separator + parts.last()
    }
}

/// `parts` joined with `separator` between two of them.
pub fn joined(parts: &Vec<String>, separator: &str) -> (text: String)
    ensures
        text@ == join(views(parts@), separator@),
{
    let mut text = String::new();
    let mut i: usize = 0;
    while i < parts.len()
        invariant
            i <= parts@.len(),
            text@ == join(views(parts@).take(i as int), separator@),
        decreases parts@.len() - i,
    {
        assert(views(parts@).take(i + 1).drop_last() =~= views(parts@).take(i as int));
        if i > 0 {
            text.append(separator);
        }
        text.append(parts[i].as_str());
        i = i + 1;
    }
    assert(views(parts@).take(parts@.len() as int) =~= views(parts@));
    text
}

/// The first line at or after `from` that starts with `prefix`.
pub open spec fn first_starting(lines: Seq<Seq<char>>, prefix: Seq<char>, from: int) -> Option<int>
    decreases lines.len() - from,
{
    if from < 0 || from >= lines.len() {
        None
    } else if prefix.is_prefix_of(lines[from]) {
        Some(from)
    } else {
        first_starting(lines, prefix, from + 1)
    }
}

/// `first_starting` finds the first line, from `from` on, that starts with
/// `prefix`, and nothing when no line does.
pub proof fn lemma_first_starting(lines: Seq<Seq<char>>, prefix: Seq<char>, from: int)
    requires
        0 <= from,
    ensures
        first_starting(lines, prefix, from) matches Some(l) ==> from <= l < lines.len()
            && prefix.is_prefix_of(lines[l]) && forall|j: int|
            from <= j < l ==> !prefix.is_prefix_of(#[trigger] lines[j]),
        first_starting(lines, prefix, from) is None ==> forall|j: int|
            from <= j < lines.len() ==> !prefix.is_prefix_of(#[trigger] lines[j]),
    decreases lines.len() - from,
{
    if from < lines.len() && !prefix.is_prefix_of(lines[from]) {
        lemma_first_starting(lines, prefix, from + 1);
    }
}

/// The first of `lines` that starts with `prefix`.
pub fn first_line_starting(lines: &Vec<String>, prefix: &str) -> (found: Option<usize>)
    ensures
        found matches Some(i) ==> i < lines@.len() && prefix@.is_prefix_of(lines@[i as int]@)
            && first_starting(views(lines@), prefix@, 0) == Some(i as int),
        found is None ==> first_starting(views(lines@), prefix@, 0) is None,
{
    let mut i: usize = 0;
    while i < lines.len()
        invariant
            i <= lines@.len(),
            first_starting(views(lines@), prefix@, i as int) == first_starting(
                views(lines@),
                prefix@,
                0,
            ),
        decreases lines@.len() - i,
    {
        let chars = chars_of(lines[i].as_str());
        if starts_with(chars.as_slice(), prefix) {
            return Some(i);
        }
        i = i + 1;
    }
    None
}

/// `text` without white space at either end.
pub fn trimmed(text: &str) -> (result: String)
    ensures
        result@ == trim(text@),
{
    let chars = chars_of(text);
    let mut start: usize = 0;
    assert(chars@.skip(0) =~= chars@);
    while start < chars.len() && char_is_whitespace(chars[start])
        invariant
            chars@ == text@,
            start <= chars@.len(),
            trim_start(chars@.skip(start as int)) == trim_start(text@),
        decreases chars@.len() - start,
    {
        assert(chars@.skip(start as int).drop_first() =~= chars@.skip(start + 1));
        start = start + 1;
    }
    let rest = suffix_chars(chars.as_slice(), start);
    let end = trimmed_end_len(rest.as_slice(), rest.len());
    assert(rest@.take(rest@.len() as int) =~= rest@);
    prefix_string(rest.as_slice(), end)
}

/// Reading `text` one character at a time for the pieces between `separator`s:
/// the pieces ended so far, and the one still open.
pub open spec fn split_state(text: Seq<char>, separator: char) -> (Seq<Seq<char>>, Seq<char>)
    decreases text.len(),
{
    if text.len() == 0 {
        (Seq::empty(), Seq::empty())
    } else {
        let (done, open) = split_state(text.drop_last(), separator);
        if text.last() == separator {
            (done.push(open), Seq::empty())
        } else {
            (done, open.push(text.last()))
        }
    }
}

/// The pieces of `text` between `separator`s, empty ones included: what
/// `str::split` gives for a single character.
pub open spec fn split(text: Seq<char>, separator: char) -> Seq<Seq<char>> {
    let (done, open) = split_state(text, separator);
    done.push(open)
}

/// The pieces of `text` between `separator`s.
pub fn split_of(text: &str, separator: char) -> (pieces: Vec<String>)
    ensures
        views(pieces@) == split(text@, separator),
{
    let chars = chars_of(text);
    let mut pieces: Vec<String> = Vec::new();
    let mut open: Vec<char> = Vec::new();
    let mut i: usize = 0;
    while i < chars.len()
        invariant
            chars@ == text@,
            i <= chars@.len(),
            (views(pieces@), open@) == split_state(chars@.take(i as int), separator),
        decreases chars@.len() - i,
    {
        assert(chars@.take(i + 1).drop_last() =~= chars@.take(i as int));
        let c = chars[i];
        if c == separator {
            let piece = string_of(open.as_slice());
            pieces.push(piece);
            open = Vec::new();
        } else {
            open.push(c);
        }
        assert(views(pieces@) =~= split_state(chars@.take(i + 1), separator).0);
        assert(open@ =~= split_state(chars@.take(i + 1), separator).1);
        i = i + 1;
    }
    assert(chars@.take(chars@.len() as int) =~= chars@);
    let last = string_of(open.as_slice());
    pieces.push(last);
    assert(views(pieces@) =~= split(text@, separator));
    pieces
}

/// A character among `0` to `9`.
pub open spec fn is_ascii_digit(c: char) -> bool {
    '0' <= c <= '9'
}

/// A character among `a` to `z` and `A` to `Z`.
pub open spec fn is_ascii_alphabetic(c: char) -> bool {
    ('a' <= c <= 'z') || ('A' <= c <= 'Z')
}

/// A hexadecimal digit, in either case.
pub open spec fn is_hex_digit(c: char) -> bool {
    is_ascii_digit(c) || ('a' <= c <= 'f') || ('A' <= c <= 'F')
}

/// The value of a hexadecimal digit.
pub open spec fn hex_digit_value(c: char) -> int {
    if is_ascii_digit(c) {
        c as int - '0' as int
    } else if 'a' <= c <= 'f' {
        c as int - 'a' as int + 10
    } else {
        c as int - 'A' as int + 10
    }
}

/// The number written by the decimal digits `digits`.
pub open spec fn decimal_value(digits: Seq<char>) -> nat
    decreases digits.len(),
{
    if digits.len() == 0 {
        0
    } else {
        (decimal_value(digits.drop_last()) * 10 + (digits.last() as int - '0' as int)) as nat
    }
}

/// The number written by the hexadecimal digits `digits`.
pub open spec fn hex_value(digits: Seq<char>) -> nat
    decreases digits.len(),
{
    if digits.len() == 0 {
        0
    } else {
        (hex_value(digits.drop_last()) * 16 + hex_digit_value(digits.last())) as nat
    }
}

/// `text` without the `+` sign that may start it.
pub open spec fn unsigned_digits(text: Seq<char>) -> Seq<char> {
    if text.len() > 0 && text[0] == '+' {
        text.drop_first()
    } else {
        text
    }
}

/// What `u32::from_str_radix(text, 16)` accepts: an optional `+`, then one
/// or more hexadecimal digits whose value fits in 32 bits.
pub open spec fn parse_hex_u32(text: Seq<char>) -> Option<u32> {
    let digits = unsigned_digits(text);
    if digits.len() > 0 && (forall|i: int| 0 <= i < digits.len() ==> is_hex_digit(#[trigger] digits[i]))
        && hex_value(digits) <= u32::MAX {
        Some(hex_value(digits) as u32)
    } else {
        None
    }
}

/// What `u64::from_str` accepts: an optional `+`, then one or more decimal
/// digits whose value fits in 64 bits.
pub open spec fn parse_u64(text: Seq<char>) -> Option<u64> {
    let digits = unsigned_digits(text);
    if digits.len() > 0 && (forall|i: int| 0 <= i < digits.len() ==> is_ascii_digit(#[trigger] digits[i]))
        && decimal_value(digits) <= u64::MAX {
        Some(decimal_value(digits) as u64)
    } else {
        None
    }
}

proof fn lemma_value_grows(digits: Seq<char>, i: int)
    requires
        0 <= i <= digits.len(),
        forall|j: int| 0 <= j < digits.len() ==> is_ascii_digit(#[trigger] digits[j]),
    ensures
        decimal_value(digits.take(i)) <= decimal_value(digits),
    decreases digits.len() - i,
{
    if i < digits.len() {
        lemma_value_grows(digits, i + 1);
        assert(digits.take(i + 1).drop_last() =~= digits.take(i));
    } else {
        assert(digits.take(i) =~= digits);
    }
}

proof fn lemma_hex_value_grows(digits: Seq<char>, i: int)
    requires
        0 <= i <= digits.len(),
        forall|j: int| 0 <= j < digits.len() ==> is_hex_digit(#[trigger] digits[j]),
    ensures
        hex_value(digits.take(i)) <= hex_value(digits),
    decreases digits.len() - i,
{
    if i < digits.len() {
        lemma_hex_value_grows(digits, i + 1);
        assert(digits.take(i + 1).drop_last() =~= digits.take(i));
    } else {
        assert(digits.take(i) =~= digits);
    }
}

/// `text` read as `u32::from_str_radix(text, 16)` reads it.
pub fn hex_u32(text: &[char]) -> (value: Option<u32>)
    ensures
        value == parse_hex_u32(text@),
{
    let start: usize = if text.len() > 0 && text[0] == '+' {
        1
    } else {
        0
    };
    let ghost digits = unsigned_digits(text@);
    assert(digits =~= text@.skip(start as int));
    if start >= text.len() {
        return None;
    }
    let mut value: u64 = 0;
    let mut i: usize = start;
    while i < text.len()
        invariant
            start <= i <= text@.len(),
            digits == text@.skip(start as int),
            digits == unsigned_digits(text@),
            forall|j: int| 0 <= j < i - start ==> is_hex_digit(#[trigger] digits[j]),
            value == hex_value(digits.take(i - start)),
            value <= u32::MAX,
        decreases text@.len() - i,
    {
        let c = text[i];
        let d: u64 = if '0' <= c && c <= '9' {
            (c as u64) - ('0' as u64)
        } else if 'a' <= c && c <= 'f' {
            (c as u64) - ('a' as u64) + 10
        } else if 'A' <= c && c <= 'F' {
            (c as u64) - ('A' as u64) + 10
        } else {
            proof {
                assert(digits[i - start] == c);
                assert(!is_hex_digit(c));
                assert(!(forall|j: int| 0 <= j < digits.len() ==> is_hex_digit(#[trigger] digits[j])));
            }
            return None;
        };
        assert(digits.take(i + 1 - start).drop_last() =~= digits.take(i - start));
        value = value * 16 + d;
        if value > 0xffff_ffff {
            proof {
                let k = i + 1 - start;
                assert forall|j: int| 0 <= j < k implies is_hex_digit(#[trigger] digits.take(k)[j]) by {
                }
                if forall|j: int| 0 <= j < digits.len() ==> is_hex_digit(#[trigger] digits[j]) {
                    lemma_hex_value_grows(digits, k);
                }
            }
            return None;
        }
        i = i + 1;
    }
    assert(digits.take(text@.len() - start) =~= digits);
    Some(value as u32)
}

/// `text` read as `u64::from_str` reads it.
pub fn dec_u64(text: &[char]) -> (value: Option<u64>)
    ensures
        value == parse_u64(text@),
{
    let start: usize = if text.len() > 0 && text[0] == '+' {
        1
    } else {
        0
    };
    let ghost digits = unsigned_digits(text@);
    assert(digits =~= text@.skip(start as int));
    if start >= text.len() {
        return None;
    }
    let mut value: u64 = 0;
    let mut i: usize = start;
    while i < text.len()
        invariant
            start <= i <= text@.len(),
            digits == text@.skip(start as int),
            digits == unsigned_digits(text@),
            forall|j: int| 0 <= j < i - start ==> is_ascii_digit(#[trigger] digits[j]),
            value == decimal_value(digits.take(i - start)),
        decreases text@.len() - i,
    {
        let c = text[i];
        if c < '0' || c > '9' {
            proof {
                assert(digits[i - start] == c);
                assert(!is_ascii_digit(c));
                assert(!(forall|j: int| 0 <= j < digits.len() ==> is_ascii_digit(#[trigger] digits[j])));
            }
            return None;
        }
        let d: u64 = (c as u64) - ('0' as u64);
        assert(digits.take(i + 1 - start).drop_last() =~= digits.take(i - start));
        if value > (0xffff_ffff_ffff_ffff - d) / 10 {
            proof {
                let k = i + 1 - start;
                assert(decimal_value(digits.take(k)) == value * 10 + d);
                assert forall|j: int| 0 <= j < k implies is_ascii_digit(#[trigger] digits.take(k)[j]) by {
                }
                if forall|j: int| 0 <= j < digits.len() ==> is_ascii_digit(#[trigger] digits[j]) {
                    lemma_value_grows(digits, k);
                }
            }
            return None;
        }
        value = value * 10 + d;
        i = i + 1;
    }
    assert(digits.take(text@.len() - start) =~= digits);
    Some(value)
}

} // verus!
