//! System readings from /sys/class/hwmon and /proc: what the files say,
//! once read.

use vstd::prelude::*;
use vstd::string::StringSliceAdditionalSpecFns;
use vstd::utf8::encode_utf8;

use crate::text::{
    chars_of, dec_u64, lemma_find_char_from, lemma_first_starting, lemma_trim_end_matches,
    lemma_trim_start_matches, decimal, decimal_string, decimal_value, ends_with, find_char, find_char_from, first_line_starting,
    first_starting, hex_u32, is_ascii_alphabetic, is_ascii_digit, join, joined, lines, lines_of,
    parse_hex_u32, parse_u64, prefix_string, same_text, split, split_of, suffix_chars,
    suffix_string, trim, trim_end_matches, trim_start_matches, trimmed, trimmed_end_matches,
    trimmed_start_matches, views, words, words_of,
};

verus! {

/// (chip name, temperature label) pairs tried in order for the CPU.
pub const CPU_TEMP_SOURCES: [(&'static str, &'static str); 3] = [
    ("k10temp", "Tctl"),
    ("coretemp", "Package id 0"),
    ("zenpower", "Tdie"),
];

/// (chip name, temperature label) pairs tried in order for the GPU.
pub const GPU_TEMP_SOURCES: [(&'static str, &'static str); 2] = [("amdgpu", "edge"), ("nouveau", "")];

/// Temperature inputs looked at on each chip: `temp1` to `temp16`.
pub const TEMP_INPUTS: usize = 16;

/// One hwmon chip as found on disk: its name, and for each of `temp1` to
/// `temp16` the label of that input when the input exists (an empty label
/// when its label file cannot be read).
pub struct TempChip {
    pub name: String,
    pub labels: Vec<Option<String>>,
}

/// The first chip at or after `from` named `name`.
pub open spec fn chip_named(chips: Seq<TempChip>, name: Seq<char>, from: int) -> Option<int>
    decreases chips.len() - from,
{
    if from < 0 || from >= chips.len() {
        None
    } else if chips[from].name@ == name {
        Some(from)
    } else {
        chip_named(chips, name, from + 1)
    }
}

/// The first input at or after position `from` (of the first sixteen) that
/// exists and is labelled `label`.
pub open spec fn input_labelled(labels: Seq<Option<String>>, label: Seq<char>, from: int) -> Option<
    int,
>
    decreases TEMP_INPUTS - from,
{
    if from < 0 || from >= TEMP_INPUTS || from >= labels.len() {
        None
    } else if labels[from] matches Some(l) && l@ == label {
        Some(from)
    } else {
        input_labelled(labels, label, from + 1)
    }
}

/// The temperature input that the sources, tried in order from `from`, pick:
/// the position of the chip and the number `n` of its `temp<n>_input`. A
/// source names a chip; only the first chip of that name is looked at.
pub open spec fn temp_source(chips: Seq<TempChip>, sources: Seq<(&str, &str)>, from: int) -> Option<
    (int, int),
>
    decreases sources.len() - from,
{
    if from < 0 || from >= sources.len() {
        None
    } else {
        match chip_named(chips, sources[from].0@, 0) {
            Some(p) => match input_labelled(chips[p].labels@, sources[from].1@, 0) {
                Some(i) => Some((p, i + 1)),
                None => temp_source(chips, sources, from + 1),
            },
            None => temp_source(chips, sources, from + 1),
        }
    }
}

fn find_chip(chips: &[TempChip], name: &str) -> (found: Option<usize>)
    ensures
        found matches Some(p) ==> p < chips@.len() && chip_named(chips@, name@, 0) == Some(p as int),
        found is None ==> chip_named(chips@, name@, 0) is None,
{
    let mut p: usize = 0;
    while p < chips.len()
        invariant
            p <= chips@.len(),
            chip_named(chips@, name@, p as int) == chip_named(chips@, name@, 0),
        decreases chips@.len() - p,
    {
        if same_text(chips[p].name.as_str(), name) {
            return Some(p);
        }
        p = p + 1;
    }
    None
}

fn find_input(labels: &Vec<Option<String>>, label: &str) -> (found: Option<usize>)
    ensures
        found matches Some(i) ==> i < TEMP_INPUTS && input_labelled(labels@, label@, 0) == Some(
            i as int,
        ),
        found is None ==> input_labelled(labels@, label@, 0) is None,
{
    let mut i: usize = 0;
    while i < TEMP_INPUTS && i < labels.len()
        invariant
            i <= TEMP_INPUTS,
            input_labelled(labels@, label@, i as int) == input_labelled(labels@, label@, 0),
        decreases TEMP_INPUTS - i,
    {
        if let Some(l) = &labels[i] {
            if same_text(l.as_str(), label) {
                return Some(i);
            }
        }
        i = i + 1;
    }
    None
}

/// The temperature input to read, as the position of its chip in `chips`
/// and the `n` of its `temp<n>_input`: the sources are tried in order.
pub fn find_temp(chips: &[TempChip], sources: &[(&str, &str)]) -> (found: Option<(usize, u32)>)
    ensures
        found matches Some((p, n)) ==> temp_source(chips@, sources@, 0) == Some(
            (p as int, n as int),
        ),
        found is None ==> temp_source(chips@, sources@, 0) is None,
{
    let mut s: usize = 0;
    while s < sources.len()
        invariant
            s <= sources@.len(),
            temp_source(chips@, sources@, s as int) == temp_source(chips@, sources@, 0),
        decreases sources@.len() - s,
    {
        let (chip, label) = sources[s];
        if let Some(p) = find_chip(chips, chip) {
            if let Some(i) = find_input(&chips[p].labels, label) {
                return Some((p, (i + 1) as u32));
            }
        }
        s = s + 1;
    }
    None
}

/// Words of a CPU model name that say nothing the gauge needs.
pub open spec fn is_vendor_word(word: Seq<char>) -> bool {
    word == "AMD"@ || word == "Intel(R)"@ || word == "Core(TM)"@ || word == "CPU"@
}

/// Words that end the useful part of a CPU model name.
pub open spec fn ends_model(word: Seq<char>) -> bool {
    "-Core"@.is_suffix_of(word) || word == "@"@
}

/// The words of a model name that the gauge keeps: vendor words dropped,
/// and nothing from the core count or the clock on.
pub open spec fn model_words(words: Seq<Seq<char>>) -> Seq<Seq<char>>
    decreases words.len(),
{
    if words.len() == 0 {
        Seq::empty()
    } else if is_vendor_word(words[0]) {
        model_words(words.drop_first())
    } else if ends_model(words[0]) {
        Seq::empty()
    } else {
        seq![words[0]] + model_words(words.drop_first())
    }
}

/// The words kept of a CPU model name are never vendor words nor words that
/// end the model, come in the order of the name, and a name made of other
/// words only is kept whole.
pub proof fn lemma_model_words(words: Seq<Seq<char>>)
    ensures
        model_words(words).len() <= words.len(),
        forall|i: int|
            0 <= i < model_words(words).len() ==> !is_vendor_word(#[trigger] model_words(words)[i])
                && !ends_model(model_words(words)[i]),
        (forall|i: int|
            0 <= i < words.len() ==> !is_vendor_word(#[trigger] words[i]) && !ends_model(words[i]))
            ==> model_words(words) == words,
    decreases words.len(),
{
    if words.len() > 0 {
        let rest = words.drop_first();
        lemma_model_words(rest);
        let kept = model_words(words);
        if !is_vendor_word(words[0]) && !ends_model(words[0]) {
            assert forall|i: int| 0 <= i < kept.len() implies !is_vendor_word(#[trigger] kept[i])
                && !ends_model(kept[i]) by {
                if i > 0 {
                    assert(kept[i] == model_words(rest)[i - 1]);
                }
            }
            if forall|i: int| 0 <= i < words.len() ==> !is_vendor_word(#[trigger] words[i]) && !ends_model(words[i]) {
                assert forall|i: int| 0 <= i < rest.len() implies !is_vendor_word(#[trigger] rest[i])
                    && !ends_model(rest[i]) by {
                    assert(rest[i] == words[i + 1]);
                }
                assert(kept =~= words);
            }
        }
    }
}

/// The CPU name in /proc/cpuinfo: the first `model name` line, after its
/// colon, cut down to the words that matter.
pub open spec fn cpu_name_in(cpuinfo: Seq<char>) -> Option<Seq<char>> {
    let all = lines(cpuinfo);
    match first_starting(all, "model name"@, 0) {
        None => None,
        Some(l) => match find_char_from(all[l], ':', 0) {
            None => None,
            Some(c) => Some(join(model_words(words(all[l].skip(c + 1))), " "@)),
        },
    }
}

/// "AMD Ryzen 9 9900X3D 12-Core Processor" becomes "Ryzen 9 9900X3D":
/// the model name in the text of /proc/cpuinfo.
pub fn cpu_name(cpuinfo: &str) -> (name: Option<String>)
    ensures
        name matches Some(n) ==> cpu_name_in(cpuinfo@) == Some(n@),
        name is None ==> cpu_name_in(cpuinfo@) is None,
{
    let all = lines_of(cpuinfo);
    let l = first_line_starting(&all, "model name")?;
    let chars = chars_of(all[l].as_str());
    let c = find_char(chars.as_slice(), ':')?;
    let model = suffix_string(chars.as_slice(), c + 1);
    let found = words_of(model.as_str());
    let mut kept: Vec<String> = Vec::new();
    let mut i: usize = 0;
    assert(views(found@).skip(0) =~= views(found@));
    assert(views(kept@) =~= Seq::<Seq<char>>::empty());
    assert(Seq::<Seq<char>>::empty() + model_words(views(found@)) =~= model_words(views(found@)));
    loop
        invariant_except_break
            i <= found@.len(),
            views(kept@) + model_words(views(found@).skip(i as int)) == model_words(
                views(found@),
            ),
        ensures
            views(kept@) == model_words(views(found@)),
        decreases found@.len() - i,
    {
        if i >= found.len() {
            assert(views(found@).skip(i as int) =~= Seq::<Seq<char>>::empty());
            assert(views(kept@) + Seq::<Seq<char>>::empty() =~= views(kept@));
            break;
        }
        let ghost rest = views(found@).skip(i as int);
        assert(rest.drop_first() =~= views(found@).skip(i + 1));
        let word = &found[i];
        let vendor = same_text(word.as_str(), "AMD") || same_text(word.as_str(), "Intel(R)")
            || same_text(word.as_str(), "Core(TM)") || same_text(word.as_str(), "CPU");
        if !vendor {
            let word_chars = chars_of(word.as_str());
            if ends_with(word_chars.as_slice(), "-Core") || same_text(word.as_str(), "@") {
                assert(views(kept@) + Seq::<Seq<char>>::empty() =~= views(kept@));
                break;
            }
            let ghost before = views(kept@);
            kept.push(word.clone());
            assert(views(kept@) =~= before.push(word@));
            assert(before.push(word@) + model_words(rest.drop_first()) =~= before + (seq![word@]
                + model_words(rest.drop_first())));
        }
        i = i + 1;
    }
    Some(joined(&kept, " "))
}

/// The supply's name is there exactly when a line starts with `HID_NAME=`;
/// it is then what follows the key on the first such line, cut where
/// ` Power Supply` ends it, and it never ends with ` Power Supply`.
pub proof fn lemma_psu_name_follows_its_key(uevent: Seq<char>)
    ensures
        psu_name_in(uevent) is None <==> forall|l: int|
            0 <= l < lines(uevent).len() ==> !"HID_NAME="@.is_prefix_of(#[trigger] lines(uevent)[l]),
        psu_name_in(uevent) matches Some(n) ==> {
            &&& !" Power Supply"@.is_suffix_of(n)
            &&& exists|l: int|
                0 <= l < lines(uevent).len() && ("HID_NAME="@ + n).is_prefix_of(
                    #[trigger] lines(uevent)[l],
                )
        },
{
    reveal_strlit("HID_NAME=");
    reveal_strlit(" Power Supply");
    let all = lines(uevent);
    lemma_first_starting(all, "HID_NAME="@, 0);
    if let Some(l) = first_starting(all, "HID_NAME="@, 0) {
        let value = all[l].skip(9);
        lemma_trim_end_matches(value, " Power Supply"@);
        let n = trim_end_matches(value, " Power Supply"@);
        assert(all[l].take(9 + n.len() as int) =~= "HID_NAME="@ + n);
        assert(("HID_NAME="@ + n).is_prefix_of(all[l]));
    }
}

/// The power supply's name in its uevent file: the first `HID_NAME=` line,
/// after the key, without the ` Power Supply` that ends it.
pub open spec fn psu_name_in(uevent: Seq<char>) -> Option<Seq<char>> {
    let all = lines(uevent);
    match first_starting(all, "HID_NAME="@, 0) {
        None => None,
        Some(l) => Some(
            trim_end_matches(all[l].skip("HID_NAME="@.len() as int), " Power Supply"@),
        ),
    }
}

/// The `HID_NAME` of the power supply, e.g. `CORSAIR HX1200i Power Supply`
/// becomes `CORSAIR HX1200i`, from the text of its uevent file.
pub fn psu_name(uevent: &str) -> (name: Option<String>)
    ensures
        name matches Some(n) ==> psu_name_in(uevent@) == Some(n@),
        name is None ==> psu_name_in(uevent@) is None,
{
    let all = lines_of(uevent);
    let l = first_line_starting(&all, "HID_NAME=")?;
    let chars = chars_of(all[l].as_str());
    let key = chars_of("HID_NAME=");
    let value = suffix_chars(chars.as_slice(), key.len());
    Some(trimmed_end_matches(value.as_slice(), " Power Supply"))
}

/// The release that `uname -r` prints, without the distribution suffix:
/// everything before the first `-`.
pub open spec fn kernel_release_of(release: Seq<char>) -> Seq<char> {
    match find_char_from(release, '-', 0) {
        Some(i) => release.take(i),
        None => release,
    }
}

/// The release shown is a start of the one given that holds no `-`: all of
/// it when it has no `-`, else everything before the first one.
pub proof fn lemma_kernel_release_stops_at_first_dash(release: Seq<char>)
    ensures
        kernel_release_of(release).len() <= release.len(),
        kernel_release_of(release) == release.take(kernel_release_of(release).len() as int),
        forall|j: int| 0 <= j < kernel_release_of(release).len() ==> release[j] != '-',
        kernel_release_of(release).len() < release.len() ==> release[kernel_release_of(
            release,
        ).len() as int] == '-',
{
    lemma_find_char_from(release, '-', 0);
    assert(release.take(release.len() as int) =~= release);
}

/// "7.2.5" for "7.2.5-200.fc44.x86_64".
pub fn kernel_release(release: &str) -> (kernel: String)
    ensures
        kernel@ == kernel_release_of(release@),
{
    let chars = chars_of(release);
    match find_char(chars.as_slice(), '-') {
        Some(i) => prefix_string(chars.as_slice(), i),
        None => {
            assert(chars@.take(chars@.len() as int) =~= chars@);
            prefix_string(chars.as_slice(), chars.len())
        },
    }
}

/// `word` without the letters that start it.
pub open spec fn without_leading_letters(word: Seq<char>) -> Seq<char>
    decreases word.len(),
{
    if word.len() > 0 && is_ascii_alphabetic(word[0]) {
        without_leading_letters(word.drop_first())
    } else {
        word
    }
}

/// The digits that start `word`.
pub open spec fn leading_digits(word: Seq<char>) -> Seq<char>
    decreases word.len(),
{
    if word.len() > 0 && is_ascii_digit(word[0]) {
        seq![word[0]] + leading_digits(word.drop_first())
    } else {
        Seq::empty()
    }
}

/// Lowest and highest rating, in watts, that a model name is read as.
pub const MIN_RATING: u32 = 300;
pub const MAX_RATING: u32 = 3000;

/// The rating one word of a model name carries: the number right after its
/// leading letters, when that is a plausible wattage.
pub open spec fn word_rating(word: Seq<char>) -> Option<u32> {
    let digits = leading_digits(without_leading_letters(word));
    if digits.len() > 0 && MIN_RATING <= decimal_value(digits) <= MAX_RATING {
        Some(decimal_value(digits) as u32)
    } else {
        None
    }
}

/// The first rating that the words of a model name carry, from word `from` on.
pub open spec fn rating_in(words: Seq<Seq<char>>, from: int) -> Option<u32>
    decreases words.len() - from,
{
    if from < 0 || from >= words.len() {
        None
    } else {
        match word_rating(words[from]) {
            Some(watts) => Some(watts),
            None => rating_in(words, from + 1),
        }
    }
}

/// A rating read from a model name is a plausible wattage, and it is the one
/// of the first word that carries one.
pub proof fn lemma_rating_is_plausible(words: Seq<Seq<char>>, from: int)
    requires
        0 <= from,
    ensures
        rating_in(words, from) matches Some(w) ==> MIN_RATING <= w <= MAX_RATING && exists|i: int|
            from <= i < words.len() && word_rating(#[trigger] words[i]) == Some(w) && forall|j: int|
                from <= j < i ==> word_rating(#[trigger] words[j]) is None,
        rating_in(words, from) is None ==> forall|j: int|
            from <= j < words.len() ==> word_rating(#[trigger] words[j]) is None,
    decreases words.len() - from,
{
    if from < words.len() && word_rating(words[from]) is None {
        lemma_rating_is_plausible(words, from + 1);
    }
}

proof fn lemma_leading_digits(word: Seq<char>, i: int)
    requires
        0 <= i <= word.len(),
        forall|j: int| 0 <= j < i ==> is_ascii_digit(#[trigger] word[j]),
    ensures
        leading_digits(word) == word.take(i) + leading_digits(word.skip(i)),
    decreases i,
{
    if i > 0 {
        lemma_leading_digits(word.drop_first(), i - 1);
        assert(word.drop_first().take(i - 1) =~= word.take(i).drop_first());
        assert(word.drop_first().skip(i - 1) =~= word.skip(i));
        assert(word.take(i) =~= seq![word[0]] + word.take(i).drop_first());
    } else {
        assert(word.skip(0) =~= word);
        assert(word.take(0) + leading_digits(word) =~= leading_digits(word));
    }
}

proof fn lemma_digits_value_grows(digits: Seq<char>, i: int)
    requires
        0 <= i <= digits.len(),
        forall|j: int| 0 <= j < digits.len() ==> is_ascii_digit(#[trigger] digits[j]),
    ensures
        decimal_value(digits.take(i)) <= decimal_value(digits),
    decreases digits.len() - i,
{
    if i < digits.len() {
        lemma_digits_value_grows(digits, i + 1);
        assert(digits.take(i + 1).drop_last() =~= digits.take(i));
    } else {
        assert(digits.take(i) =~= digits);
    }
}

proof fn lemma_leading_digits_are_digits(word: Seq<char>)
    ensures
        forall|j: int|
            0 <= j < leading_digits(word).len() ==> is_ascii_digit(
                #[trigger] leading_digits(word)[j],
            ),
        leading_digits(word).len() <= word.len(),
    decreases word.len(),
{
    if word.len() > 0 && is_ascii_digit(word[0]) {
        lemma_leading_digits_are_digits(word.drop_first());
    }
}

/// The rating carried by one word.
fn rating_of_word(word: &str) -> (watts: Option<u32>)
    ensures
        watts == word_rating(word@),
{
    let chars = chars_of(word);
    let mut start: usize = 0;
    assert(chars@.skip(0) =~= chars@);
    while start < chars.len() && (('a' <= chars[start] && chars[start] <= 'z') || ('A'
        <= chars[start] && chars[start] <= 'Z'))
        invariant
            chars@ == word@,
            start <= chars@.len(),
            without_leading_letters(chars@.skip(start as int)) == without_leading_letters(word@),
        decreases chars@.len() - start,
    {
        assert(chars@.skip(start as int).drop_first() =~= chars@.skip(start + 1));
        start = start + 1;
    }
    let ghost rest = chars@.skip(start as int);
    // The value read so far, held at one more than the highest rating once past it.
    let mut value: u32 = 0;
    let mut i: usize = start;
    while i < chars.len() && '0' <= chars[i] && chars[i] <= '9'
        invariant
            start <= i <= chars@.len(),
            rest == chars@.skip(start as int),
            forall|j: int| 0 <= j < i - start ==> is_ascii_digit(#[trigger] rest[j]),
            value as int == if decimal_value(rest.take(i - start)) <= MAX_RATING {
                decimal_value(rest.take(i - start)) as int
            } else {
                MAX_RATING + 1
            },
        decreases chars@.len() - i,
    {
        assert(rest.take(i + 1 - start).drop_last() =~= rest.take(i - start));
        let d = (chars[i] as u32) - ('0' as u32);
        if value <= MAX_RATING {
            value = value * 10 + d;
            if value > MAX_RATING {
                value = MAX_RATING + 1;
            }
        }
        i = i + 1;
    }
    proof {
        lemma_leading_digits(rest, i - start);
        if i < chars@.len() {
            assert(!is_ascii_digit(rest[i - start]));
            assert(leading_digits(rest.skip(i - start)) =~= Seq::<char>::empty());
        } else {
            assert(rest.skip(i - start) =~= Seq::<char>::empty());
        }
        assert(rest.take(i - start) + Seq::<char>::empty() =~= rest.take(i - start));
    }
    if i > start && MIN_RATING <= value && value <= MAX_RATING {
        Some(value)
    } else {
        None
    }
}

/// Corsair model names carry the rating: an `HX1200i` is a 1200 W unit.
/// The rating, in watts, that a power supply's model name carries.
pub fn rating_from_model(model: &str) -> (watts: Option<u32>)
    ensures
        watts == rating_in(words(model@), 0),
{
    let found = words_of(model);
    let mut i: usize = 0;
    while i < found.len()
        invariant
            i <= found@.len(),
            views(found@) == words(model@),
            rating_in(words(model@), i as int) == rating_in(words(model@), 0),
        decreases found@.len() - i,
    {
        let watts = rating_of_word(found[i].as_str());
        if watts.is_some() {
            return watts;
        }
        i = i + 1;
    }
    None
}

/// A PCI id as sysfs writes it (`0x744c`), read as a number.
pub open spec fn pci_id(text: Seq<char>) -> Option<u32> {
    parse_hex_u32(trim_start_matches(text, "0x"@))
}

/// The marketing name one row of libdrm's amdgpu.ids gives to `device` at
/// `revision`: rows read "device id, revision, name", in hexadecimal.
pub open spec fn ids_row_name(row: Seq<char>, device: u32, revision: u32) -> Option<Seq<char>> {
    let fields = split(row, ',');
    match parse_hex_u32(trim(fields[0])) {
        None => None,
        Some(d) => if d != device || fields.len() < 2 {
            None
        } else {
            match parse_hex_u32(trim(fields[1])) {
                None => None,
                Some(r) => if r != revision || fields.len() < 3 {
                    None
                } else {
                    Some(trim_start_matches(trim(fields[2]), "AMD "@))
                },
            }
        },
    }
}

/// The first row, from row `from` on, that names `device` at `revision`.
pub open spec fn ids_name_from(rows: Seq<Seq<char>>, device: u32, revision: u32, from: int) -> Option<
    Seq<char>,
>
    decreases rows.len() - from,
{
    if from < 0 || from >= rows.len() {
        None
    } else {
        match ids_row_name(rows[from], device, revision) {
            Some(name) => Some(name),
            None => ids_name_from(rows, device, revision, from + 1),
        }
    }
}

/// A name from libdrm's table never starts with `AMD `: the vendor is the
/// one thing every row repeats.
pub proof fn lemma_gpu_names_lose_the_vendor(rows: Seq<Seq<char>>, device: u32, revision: u32, from: int)
    ensures
        ids_name_from(rows, device, revision, from) matches Some(n) ==> !"AMD "@.is_prefix_of(n),
    decreases rows.len() - from,
{
    reveal_strlit("AMD ");
    if 0 <= from < rows.len() {
        let fields = split(rows[from], ',');
        if fields.len() >= 3 {
            lemma_trim_start_matches(trim(fields[2]), "AMD "@);
        }
        lemma_gpu_names_lose_the_vendor(rows, device, revision, from + 1);
    }
}

/// The name libdrm's table gives to the GPU whose `device` and `revision`
/// files read as given.
pub open spec fn amd_gpu_name_in(device: Seq<char>, revision: Seq<char>, table: Seq<char>) -> Option<
    Seq<char>,
> {
    match (pci_id(device), pci_id(revision)) {
        (Some(d), Some(r)) => ids_name_from(lines(table), d, r, 0),
        _ => None,
    }
}

fn pci_id_of(text: &str) -> (id: Option<u32>)
    ensures
        id == pci_id(text@),
{
    let chars = chars_of(text);
    let digits = trimmed_start_matches(chars.as_slice(), "0x");
    let digit_chars = chars_of(digits.as_str());
    hex_u32(digit_chars.as_slice())
}

fn row_name(row: &str, device: u32, revision: u32) -> (name: Option<String>)
    ensures
        name matches Some(n) ==> ids_row_name(row@, device, revision) == Some(n@),
        name is None ==> ids_row_name(row@, device, revision) is None,
{
    let fields = split_of(row, ',');
    assert(views(fields@).len() > 0);
    let first = trimmed(fields[0].as_str());
    let first_chars = chars_of(first.as_str());
    let d = hex_u32(first_chars.as_slice())?;
    if d != device || fields.len() < 2 {
        return None;
    }
    let second = trimmed(fields[1].as_str());
    let second_chars = chars_of(second.as_str());
    let r = hex_u32(second_chars.as_slice())?;
    if r != revision || fields.len() < 3 {
        return None;
    }
    let third = trimmed(fields[2].as_str());
    let third_chars = chars_of(third.as_str());
    Some(trimmed_start_matches(third_chars.as_slice(), "AMD "))
}

/// Looks the PCI device and revision of an amdgpu chip up in libdrm's table:
/// `device` and `revision` are the contents of the chip's `device` and
/// `revision` files, `table` that of amdgpu.ids.
pub fn amd_gpu_name(device: &str, revision: &str, table: &str) -> (name: Option<String>)
    ensures
        name matches Some(n) ==> amd_gpu_name_in(device@, revision@, table@) == Some(n@),
        name is None ==> amd_gpu_name_in(device@, revision@, table@) is None,
{
    let d = pci_id_of(device)?;
    let r = pci_id_of(revision)?;
    let rows = lines_of(table);
    let mut i: usize = 0;
    while i < rows.len()
        invariant
            i <= rows@.len(),
            views(rows@) == lines(table@),
            pci_id(device@) == Some(d),
            pci_id(revision@) == Some(r),
            ids_name_from(lines(table@), d, r, i as int) == ids_name_from(lines(table@), d, r, 0),
        decreases rows@.len() - i,
    {
        assert(views(rows@)[i as int] == rows@[i as int]@);
        let name = row_name(rows[i].as_str(), d, r);
        if let Some(found) = name {
            assert(ids_name_from(lines(table@), d, r, i as int) == Some(found@));
            assert(amd_gpu_name_in(device@, revision@, table@) == ids_name_from(
                lines(table@),
                d,
                r,
                0,
            ));
            return Some(found);
        }
        i = i + 1;
    }
    None
}

/// The numbers among `words` that read as `u64`, in order; the others are
/// passed over.
pub open spec fn numbers_in(words: Seq<Seq<char>>) -> Seq<u64>
    decreases words.len(),
{
    if words.len() == 0 {
        Seq::empty()
    } else {
        numbers_in(words.drop_last()) + match parse_u64(words.last()) {
            Some(n) => seq![n],
            None => Seq::empty(),
        }
    }
}

/// The jiffy counters on the first line of /proc/stat, after its `cpu` label.
pub open spec fn cpu_fields_in(stat: Seq<char>) -> Option<Seq<u64>> {
    let all = lines(stat);
    if all.len() == 0 {
        None
    } else {
        let counters = if words(all[0]).len() > 0 {
            words(all[0]).drop_first()
        } else {
            Seq::empty()
        };
        Some(numbers_in(counters))
    }
}

/// The sum of `fields`.
pub open spec fn total(fields: Seq<u64>) -> nat
    decreases fields.len(),
{
    if fields.len() == 0 {
        0
    } else {
        total(fields.drop_last()) + fields.last() as nat
    }
}

/// (busy, total) jiffies from the counters of /proc/stat: fields 3 and 4
/// are idle and iowait, everything else is busy.
pub open spec fn cpu_times_of(fields: Seq<u64>) -> Option<(u64, u64)> {
    if fields.len() < 5 {
        None
    } else {
        Some(((total(fields) - (fields[3] + fields[4])) as u64, total(fields) as u64))
    }
}

/// The counters on the first line of the text of /proc/stat.
pub fn cpu_fields(stat: &str) -> (fields: Option<Vec<u64>>)
    ensures
        fields matches Some(f) ==> cpu_fields_in(stat@) == Some(f@),
        fields is None ==> cpu_fields_in(stat@) is None,
{
    let all = lines_of(stat);
    if all.len() == 0 {
        return None;
    }
    let found = words_of(all[0].as_str());
    let mut fields: Vec<u64> = Vec::new();
    let mut i: usize = 1;
    let ghost counters = if views(found@).len() > 0 {
        views(found@).drop_first()
    } else {
        Seq::empty()
    };
    while i < found.len()
        invariant
            1 <= i,
            i <= found@.len() || found@.len() == 0,
            found@.len() > 0 ==> counters == views(found@).skip(1),
            found@.len() == 0 ==> counters.len() == 0,
            found@.len() > 0 ==> fields@ == numbers_in(counters.take(i - 1)),
            found@.len() == 0 ==> fields@.len() == 0,
        decreases found@.len() - i,
    {
        assert(counters.take(i as int).drop_last() =~= counters.take(i - 1));
        let chars = chars_of(found[i].as_str());
        match dec_u64(chars.as_slice()) {
            Some(n) => {
                fields.push(n);
            },
            None => {},
        }
        assert(fields@ =~= numbers_in(counters.take(i as int)));
        i = i + 1;
    }
    proof {
        if found@.len() > 0 {
            assert(counters.take(found@.len() - 1) =~= counters);
        } else {
            assert(counters =~= Seq::<Seq<char>>::empty());
            assert(fields@ =~= numbers_in(counters));
        }
    }
    Some(fields)
}

proof fn lemma_total_covers(fields: Seq<u64>, i: int, j: int)
    requires
        0 <= i < j < fields.len(),
    ensures
        fields[i] + fields[j] <= total(fields),
    decreases fields.len(),
{
    if j < fields.len() - 1 {
        lemma_total_covers(fields.drop_last(), i, j);
    } else {
        lemma_total_covers_one(fields.drop_last(), i);
    }
}

proof fn lemma_total_covers_one(fields: Seq<u64>, i: int)
    requires
        0 <= i < fields.len(),
    ensures
        fields[i] <= total(fields),
    decreases fields.len(),
{
    if i < fields.len() - 1 {
        lemma_total_covers_one(fields.drop_last(), i);
    }
}

/// (busy, total) jiffies, from the counters of /proc/stat whose sum fits in
/// 64 bits.
pub fn cpu_times_from(fields: &[u64]) -> (times: Option<(u64, u64)>)
    requires
        total(fields@) <= u64::MAX,
    ensures
        times == cpu_times_of(fields@),
{
    let mut sum: u64 = 0;
    let mut i: usize = 0;
    while i < fields.len()
        invariant
            i <= fields@.len(),
            total(fields@) <= u64::MAX,
            sum == total(fields@.take(i as int)),
        decreases fields@.len() - i,
    {
        assert(fields@.take(i + 1).drop_last() =~= fields@.take(i as int));
        proof {
            lemma_total_prefix(fields@, i + 1);
        }
        sum = sum + fields[i];
        i = i + 1;
    }
    assert(fields@.take(fields@.len() as int) =~= fields@);
    if fields.len() < 5 {
        return None;
    }
    proof {
        lemma_total_covers(fields@, 3, 4);
    }
    let idle = fields[3] + fields[4];
    Some((sum - idle, sum))
}

proof fn lemma_total_prefix(fields: Seq<u64>, i: int)
    requires
        0 <= i <= fields.len(),
    ensures
        total(fields.take(i)) <= total(fields),
    decreases fields.len() - i,
{
    if i < fields.len() {
        lemma_total_prefix(fields, i + 1);
        assert(fields.take(i + 1).drop_last() =~= fields.take(i));
    } else {
        assert(fields.take(i) =~= fields);
    }
}

/// The CPU is never busier than the time that passed: busy and idle
/// jiffies (fields 3 and 4) add up to the total.
pub proof fn lemma_busy_within_total(fields: Seq<u64>)
    requires
        total(fields) <= u64::MAX,
        fields.len() >= 5,
    ensures
        cpu_times_of(fields) matches Some((busy, all)) && busy <= all && busy + fields[3]
            + fields[4] == all,
{
    lemma_total_covers(fields, 3, 4);
}

/// Whether the counters of /proc/stat can be summed: reading them adds them up.
pub open spec fn cpu_times_defined(stat: Seq<char>) -> bool {
    cpu_fields_in(stat) matches Some(f) ==> total(f) <= u64::MAX
}

/// (busy, total) jiffies from the text of /proc/stat.
pub fn cpu_times(stat: &str) -> (times: Option<(u64, u64)>)
    requires
        cpu_times_defined(stat@),
    ensures
        times == match cpu_fields_in(stat@) {
            Some(f) => cpu_times_of(f),
            None => None,
        },
{
    let fields = cpu_fields(stat)?;
    cpu_times_from(fields.as_slice())
}

/// What the CPU has done between two readings of /proc/stat: the jiffies it
/// was busy and the jiffies that passed, or nothing when no time passed.
pub open spec fn cpu_delta(previous: (u64, u64), current: (u64, u64)) -> Option<(u64, u64)> {
    if current.1 > previous.1 {
        Some(
            (
                if current.0 >= previous.0 {
                    (current.0 - previous.0) as u64
                } else {
                    0
                },
                (current.1 - previous.1) as u64,
            ),
        )
    } else {
        None
    }
}

/// The previous (busy, total) reading of /proc/stat, which a CPU usage is
/// measured against.
pub struct CpuSampler {
    pub previous: Option<(u64, u64)>,
}

impl CpuSampler {
    /// No reading yet.
    pub fn new() -> (sampler: Self)
        ensures
            sampler.previous is None,
    {
        CpuSampler { previous: None }
    }

    /// Keeps `current` as the reading the next one is measured against, and
    /// gives what happened since the previous one.
    pub fn sample(&mut self, current: (u64, u64)) -> (delta: Option<(u64, u64)>)
        ensures
            final(self).previous == Some(current),
            delta == match old(self).previous {
                Some(previous) => cpu_delta(previous, current),
                None => None,
            },
    {
        let previous = self.previous;
        self.previous = Some(current);
        let previous = previous?;
        if current.1 > previous.1 {
            let busy = if current.0 >= previous.0 {
                current.0 - previous.0
            } else {
                0
            };
            Some((busy, current.1 - previous.1))
        } else {
            None
        }
    }
}

/// The name a gauge is given: the configured one, else the detected one,
/// else `fallback`.
pub fn or_detected(configured: &String, detected: Option<String>, fallback: &str) -> (name: String)
    ensures
        name@ == if configured@.len() > 0 {
            configured@
        } else {
            match detected {
                Some(d) => d@,
                None => fallback@,
            }
        },
{
    if configured.as_str().is_empty() {
        match detected {
            Some(d) => d,
            None => fallback.to_owned(),
        }
    } else {
        configured.clone()
    }
}

/// One fan as the dashboard shows it.
#[derive(Debug)]
pub struct Fan<'a> {
    pub label: &'a str,
    pub rpm: u32,
}

/// Product names shown above each gauge.
#[derive(Debug)]
pub struct Names {
    pub cpu: String,
    pub gpu: String,
    pub psu: String,
}

impl Default for Names {
    fn default() -> (names: Self)
        ensures
            names.cpu@.len() == 0 && names.gpu@.len() == 0 && names.psu@.len() == 0,
    {
        Names { cpu: String::new(), gpu: String::new(), psu: String::new() }
    }
}

/// `a` comes no later than `b` when both are compared byte by byte, the way
/// `str` and `OsStr` order themselves.
pub open spec fn bytes_le(a: Seq<u8>, b: Seq<u8>) -> bool
    decreases a.len(),
{
    if a.len() == 0 {
        true
    } else if b.len() == 0 {
        false
    } else if a[0] != b[0] {
        a[0] < b[0]
    } else {
        bytes_le(a.drop_first(), b.drop_first())
    }
}

/// What a hwmon chip is ordered by: the bytes of its name, then those of the
/// path of its directory.
pub open spec fn chip_key(chip: (String, Vec<u8>)) -> (Seq<u8>, Seq<u8>) {
    (encode_utf8(chip.0@), chip.1@)
}

/// Chip `a` comes no later than chip `b`: by name, then by path.
pub open spec fn chip_le(a: (Seq<u8>, Seq<u8>), b: (Seq<u8>, Seq<u8>)) -> bool {
    if a.0 == b.0 {
        bytes_le(a.1, b.1)
    } else {
        bytes_le(a.0, b.0)
    }
}

/// `order` lists every position of `chips` once, the chips it points to
/// coming by name, then by path.
pub open spec fn is_chip_order(chips: Seq<(String, Vec<u8>)>, order: Seq<usize>) -> bool {
    &&& order.len() == chips.len()
    &&& forall|i: int| 0 <= i < order.len() ==> #[trigger] order[i] < chips.len()
    &&& forall|i: int, j: int| 0 <= i < j < order.len() ==> #[trigger] order[i] != #[trigger] order[j]
    &&& forall|i: int, j: int|
        0 <= i < j < order.len() ==> chip_le(
            chip_key(chips[#[trigger] order[i] as int]),
            chip_key(chips[#[trigger] order[j] as int]),
        )
}

proof fn lemma_bytes_le_total(a: Seq<u8>, b: Seq<u8>)
    ensures
        bytes_le(a, b) || bytes_le(b, a),
    decreases a.len(),
{
    if a.len() > 0 && b.len() > 0 && a[0] == b[0] {
        lemma_bytes_le_total(a.drop_first(), b.drop_first());
    }
}

proof fn lemma_bytes_le_antisymmetric(a: Seq<u8>, b: Seq<u8>)
    requires
        bytes_le(a, b),
        bytes_le(b, a),
    ensures
        a == b,
    decreases a.len(),
{
    if a.len() > 0 && b.len() > 0 {
        lemma_bytes_le_antisymmetric(a.drop_first(), b.drop_first());
        assert(a =~= seq![a[0]] + a.drop_first());
        assert(b =~= seq![b[0]] + b.drop_first());
    }
}

proof fn lemma_bytes_le_transitive(a: Seq<u8>, b: Seq<u8>, c: Seq<u8>)
    requires
        bytes_le(a, b),
        bytes_le(b, c),
    ensures
        bytes_le(a, c),
    decreases a.len(),
{
    if a.len() > 0 && b.len() > 0 && c.len() > 0 && a[0] == b[0] && b[0] == c[0] {
        lemma_bytes_le_transitive(a.drop_first(), b.drop_first(), c.drop_first());
    }
}

proof fn lemma_chip_le_total(a: (Seq<u8>, Seq<u8>), b: (Seq<u8>, Seq<u8>))
    ensures
        chip_le(a, b) || chip_le(b, a),
{
    lemma_bytes_le_total(a.0, b.0);
    lemma_bytes_le_total(a.1, b.1);
}

proof fn lemma_chip_le_transitive(a: (Seq<u8>, Seq<u8>), b: (Seq<u8>, Seq<u8>), c: (Seq<u8>, Seq<u8>))
    requires
        chip_le(a, b),
        chip_le(b, c),
    ensures
        chip_le(a, c),
{
    if a.0 == b.0 && b.0 == c.0 {
        lemma_bytes_le_transitive(a.1, b.1, c.1);
    } else if a.0 != b.0 && b.0 != c.0 {
        lemma_bytes_le_transitive(a.0, b.0, c.0);
        if a.0 == c.0 {
            lemma_bytes_le_antisymmetric(a.0, b.0);
        }
    }
}

fn bytes_before(a: &[u8], b: &[u8]) -> (le: bool)
    ensures
        le == bytes_le(a@, b@),
{
    let mut i: usize = 0;
    assert(a@.skip(0) =~= a@ && b@.skip(0) =~= b@);
    while i < a.len() && i < b.len()
        invariant
            i <= a@.len(),
            i <= b@.len(),
            bytes_le(a@, b@) == bytes_le(a@.skip(i as int), b@.skip(i as int)),
        decreases a@.len() - i,
    {
        if a[i] != b[i] {
            return a[i] < b[i];
        }
        assert(a@.skip(i as int).drop_first() =~= a@.skip(i + 1));
        assert(b@.skip(i as int).drop_first() =~= b@.skip(i + 1));
        i = i + 1;
    }
    i == a.len()
}

fn same_bytes(a: &[u8], b: &[u8]) -> (same: bool)
    ensures
        same == (a@ == b@),
{
    if a.len() != b.len() {
        return false;
    }
    let mut i: usize = 0;
    while i < a.len()
        invariant
            i <= a@.len(),
            a@.len() == b@.len(),
            forall|k: int| 0 <= k < i ==> a@[k] == b@[k],
        decreases a@.len() - i,
    {
        if a[i] != b[i] {
            return false;
        }
        i = i + 1;
    }
    assert(a@ =~= b@);
    true
}

fn chip_before(x: &(String, Vec<u8>), y: &(String, Vec<u8>)) -> (le: bool)
    ensures
        le == chip_le(chip_key(*x), chip_key(*y)),
{
    let x_name = x.0.as_str().as_bytes();
    let y_name = y.0.as_str().as_bytes();
    if same_bytes(x_name, y_name) {
        bytes_before(x.1.as_slice(), y.1.as_slice())
    } else {
        bytes_before(x_name, y_name)
    }
}

/// The order the hwmon chips are looked at in: each chip is its name and the
/// path of its directory, as bytes; the result lists their positions, by
/// name, then by path. Paths of one directory's entries compare byte by byte
/// as `Path` compares them.
pub fn chip_order(chips: &[(String, Vec<u8>)]) -> (order: Vec<usize>)
    ensures
        is_chip_order(chips@, order@),
{
    let mut order: Vec<usize> = Vec::new();
    let mut n: usize = 0;
    while n < chips.len()
        invariant
            n <= chips@.len(),
            order@.len() == n,
            forall|i: int| 0 <= i < order@.len() ==> #[trigger] order@[i] < n,
            forall|i: int, j: int|
                0 <= i < j < order@.len() ==> #[trigger] order@[i] != #[trigger] order@[j],
            forall|i: int, j: int|
                0 <= i < j < order@.len() ==> chip_le(
                    chip_key(chips@[#[trigger] order@[i] as int]),
                    chip_key(chips@[#[trigger] order@[j] as int]),
                ),
        decreases chips@.len() - n,
    {
        let ghost key = chip_key(chips@[n as int]);
        let mut j: usize = 0;
        while j < order.len() && chip_before(&chips[order[j]], &chips[n])
            invariant
                n < chips@.len(),
                key == chip_key(chips@[n as int]),
                j <= order@.len(),
                forall|i: int| 0 <= i < order@.len() ==> #[trigger] order@[i] < n,
                forall|k: int| 0 <= k < j ==> chip_le(chip_key(chips@[#[trigger] order@[k] as int]), key),
            decreases order@.len() - j,
        {
            j = j + 1;
        }
        let ghost before = order@;
        proof {
            if j < before.len() {
                lemma_chip_le_total(chip_key(chips@[before[j as int] as int]), key);
                assert forall|k: int| j <= k < before.len() implies chip_le(
                    key,
                    chip_key(chips@[#[trigger] before[k] as int]),
                ) by {
                    if k > j {
                        lemma_chip_le_transitive(
                            key,
                            chip_key(chips@[before[j as int] as int]),
                            chip_key(chips@[before[k] as int]),
                        );
                    }
                }
            }
        }
        order.insert(j, n);
        proof {
            let after = order@;
            assert(after == before.insert(j as int, n));
            assert forall|i: int| 0 <= i < after.len() implies #[trigger] after[i] < n + 1 by {
                if i > j {
                    assert(after[i] == before[i - 1]);
                } else if i < j {
                    assert(after[i] == before[i]);
                }
            }
            assert forall|a: int, b: int| 0 <= a < b < after.len() implies #[trigger] after[a]
                != #[trigger] after[b] && chip_le(
                chip_key(chips@[after[a] as int]),
                chip_key(chips@[after[b] as int]),
            ) by {
                if b < j {
                    assert(after[a] == before[a] && after[b] == before[b]);
                } else if b == j {
                    assert(after[a] == before[a]);
                } else if a > j {
                    assert(after[a] == before[a - 1] && after[b] == before[b - 1]);
                } else if a == j {
                    assert(after[b] == before[b - 1]);
                } else {
                    assert(after[a] == before[a] && after[b] == before[b - 1]);
                    lemma_chip_le_transitive(
                        chip_key(chips@[before[a] as int]),
                        key,
                        chip_key(chips@[before[b - 1] as int]),
                    );
                }
            }
        }
        n = n + 1;
    }
    order
}

/// The fan inputs of one hwmon chip as found on disk: for each existing
/// `fan<n>_input`, in the order of `n`, that `n` and the text of its
/// `fan<n>_label` file when it can be read.
pub struct FanChip {
    pub name: String,
    pub inputs: Vec<(u32, Option<String>)>,
}

/// A fan the dashboard reads: where its input is (the position of its chip
/// and its number), the label it is shown with, whether it is shown even
/// when standing still, and its place in the configuration.
pub struct FanChoice {
    pub chip: usize,
    pub index: u32,
    pub label: String,
    pub always_shown: bool,
    pub order: usize,
}

/// A `FanChoice` as contracts speak of it.
pub struct FanPick {
    pub chip: int,
    pub index: u32,
    pub label: Seq<char>,
    pub always_shown: bool,
    pub order: usize,
}

impl View for FanChoice {
    type V = FanPick;

    open spec fn view(&self) -> FanPick {
        FanPick {
            chip: self.chip as int,
            index: self.index,
            label: self.label@,
            always_shown: self.always_shown,
            order: self.order,
        }
    }
}

/// The key a fan is configured under: `<chip>/fan<n>`.
pub open spec fn fan_key(chip: Seq<char>, index: u32) -> Seq<char> {
    chip + "/fan"@ + decimal(index as nat)
}

/// The first configured entry, from position `from` on, keyed `key`.
pub open spec fn configured_at(configured: Seq<(String, String)>, key: Seq<char>, from: int) -> Option<
    int,
>
    decreases configured.len() - from,
{
    if from < 0 || from >= configured.len() {
        None
    } else if configured[from].0@ == key {
        Some(from)
    } else {
        configured_at(configured, key, from + 1)
    }
}

/// The fan at input `k` of chip `c`, as it is picked, or nothing when the
/// configuration names fans and leaves this one out. Its label is the
/// configured one, else its label file, else the chip's name for a chip's
/// lone fan, else `fan<n>`.
pub open spec fn fan_pick(chips: Seq<FanChip>, c: int, k: int, configured: Seq<(String, String)>) -> Option<
    FanPick,
> {
    let chip = chips[c];
    let (index, label_file) = chip.inputs@[k];
    let position = configured_at(configured, fan_key(chip.name@, index), 0);
    if position is None && configured.len() > 0 {
        None
    } else {
        let label = match position {
            Some(p) => configured[p].1@,
            None => match label_file {
                Some(l) => l@,
                None => if chip.inputs@.len() == 1 {
                    chip.name@
                } else {
                    "fan"@ + decimal(index as nat)
                },
            },
        };
        Some(
            FanPick {
                chip: c,
                index,
                label,
                always_shown: position is Some,
                order: match position {
                    Some(p) => p as usize,
                    None => usize::MAX,
                },
            },
        )
    }
}

/// The picks among the first `n` inputs of chip `c`, in order.
pub open spec fn chip_picks(chips: Seq<FanChip>, c: int, configured: Seq<(String, String)>, n: int) -> Seq<
    FanPick,
>
    decreases n,
{
    if n <= 0 {
        Seq::empty()
    } else {
        chip_picks(chips, c, configured, n - 1) + match fan_pick(chips, c, n - 1, configured) {
            Some(pick) => seq![pick],
            None => Seq::empty(),
        }
    }
}

/// The picks on the first `n` chips, chip after chip.
pub open spec fn discovered_fans(chips: Seq<FanChip>, configured: Seq<(String, String)>, n: int) -> Seq<
    FanPick,
>
    decreases n,
{
    if n <= 0 {
        Seq::empty()
    } else {
        discovered_fans(chips, configured, n - 1) + chip_picks(
            chips,
            n - 1,
            configured,
            chips[n - 1].inputs@.len() as int,
        )
    }
}

/// The picks among `picks` configured at position `position`, in order.
pub open spec fn at_position(picks: Seq<FanPick>, position: int) -> Seq<FanPick>
    decreases picks.len(),
{
    if picks.len() == 0 {
        Seq::empty()
    } else {
        at_position(picks.drop_last(), position) + if picks.last().order == position {
            seq![picks.last()]
        } else {
            Seq::empty()
        }
    }
}

/// The picks configured at the first `n` positions, position after position.
pub open spec fn in_config_order(picks: Seq<FanPick>, n: int) -> Seq<FanPick>
    decreases n,
{
    if n <= 0 {
        Seq::empty()
    } else {
        in_config_order(picks, n - 1) + at_position(picks, n - 1)
    }
}

/// The fans the dashboard shows. With no fan configured, every fan found,
/// chip after chip; otherwise only the configured ones, in the order the
/// configuration lists them.
pub open spec fn selected_fans(chips: Seq<FanChip>, configured: Seq<(String, String)>) -> Seq<
    FanPick,
> {
    let found = discovered_fans(chips, configured, chips.len() as int);
    if configured.len() == 0 {
        found
    } else {
        in_config_order(found, configured.len() as int)
    }
}

/// Every pick is configured, at a position among the first `n`.
pub open spec fn all_configured(picks: Seq<FanPick>, n: int) -> bool {
    forall|i: int| 0 <= i < picks.len() ==> (#[trigger] picks[i]).always_shown && picks[i].order < n
}

proof fn lemma_configured_at_bounds(configured: Seq<(String, String)>, key: Seq<char>, from: int)
    ensures
        configured_at(configured, key, from) matches Some(p) ==> from <= p < configured.len(),
    decreases configured.len() - from,
{
    if 0 <= from < configured.len() && configured[from].0@ != key {
        lemma_configured_at_bounds(configured, key, from + 1);
    }
}

proof fn lemma_chip_picks_configured(
    chips: Seq<FanChip>,
    c: int,
    configured: Seq<(String, String)>,
    n: int,
)
    requires
        configured.len() > 0,
    ensures
        all_configured(chip_picks(chips, c, configured, n), configured.len() as int),
    decreases n,
{
    if n > 0 {
        lemma_chip_picks_configured(chips, c, configured, n - 1);
        let chip = chips[c];
        let (index, label_file) = chip.inputs@[n - 1];
        lemma_configured_at_bounds(configured, fan_key(chip.name@, index), 0);
        let before = chip_picks(chips, c, configured, n - 1);
        if let Some(pick) = fan_pick(chips, c, n - 1, configured) {
            let position = configured_at(configured, fan_key(chip.name@, index), 0);
            assert(position is Some);
            assert(pick.always_shown);
            assert(pick.order == position.unwrap() as usize);
            assert(pick.order < configured.len());
        }
        let added = match fan_pick(chips, c, n - 1, configured) {
            Some(pick) => seq![pick],
            None => Seq::empty(),
        };
        assert forall|i: int|
            0 <= i < (before + added).len() implies #[trigger] (before + added)[i].always_shown
            && (before + added)[i].order < configured.len() by {
            if i >= before.len() {
                assert((before + added)[i] == added[i - before.len()]);
            } else {
                assert((before + added)[i] == before[i]);
            }
        }
    }
}

proof fn lemma_discovered_configured(chips: Seq<FanChip>, configured: Seq<(String, String)>, n: int)
    requires
        configured.len() > 0,
        n <= chips.len(),
    ensures
        all_configured(discovered_fans(chips, configured, n), configured.len() as int),
    decreases n,
{
    if n > 0 {
        lemma_discovered_configured(chips, configured, n - 1);
        let before = discovered_fans(chips, configured, n - 1);
        let added = chip_picks(chips, n - 1, configured, chips[n - 1].inputs@.len() as int);
        lemma_chip_picks_configured(chips, n - 1, configured, chips[n - 1].inputs@.len() as int);
        assert forall|i: int|
            0 <= i < (before + added).len() implies #[trigger] (before + added)[i].always_shown
            && (before + added)[i].order < configured.len() by {
            if i >= before.len() {
                assert((before + added)[i] == added[i - before.len()]);
            } else {
                assert((before + added)[i] == before[i]);
            }
        }
    }
}

proof fn lemma_at_position(picks: Seq<FanPick>, position: int, n: int)
    requires
        all_configured(picks, n),
    ensures
        all_configured(at_position(picks, position), n),
        forall|i: int|
            0 <= i < at_position(picks, position).len() ==> #[trigger] at_position(
                picks,
                position,
            )[i].order == position,
    decreases picks.len(),
{
    if picks.len() > 0 {
        assert forall|i: int| 0 <= i < picks.drop_last().len() implies #[trigger] picks.drop_last()[i].always_shown
            && picks.drop_last()[i].order < n by {
            assert(picks.drop_last()[i] == picks[i]);
        }
        lemma_at_position(picks.drop_last(), position, n);
        let before = at_position(picks.drop_last(), position);
        assert(picks[picks.len() - 1].always_shown && picks[picks.len() - 1].order < n);
        let added = if picks.last().order == position {
            seq![picks.last()]
        } else {
            Seq::<FanPick>::empty()
        };
        assert forall|i: int| 0 <= i < (before + added).len() implies #[trigger] (before
            + added)[i].always_shown && (before + added)[i].order < n && (before + added)[i].order
            == position by {
            if i >= before.len() {
                assert((before + added)[i] == added[i - before.len()]);
            } else {
                assert((before + added)[i] == before[i]);
            }
        }
    }
}

proof fn lemma_in_config_order(picks: Seq<FanPick>, n: int, limit: int)
    requires
        all_configured(picks, limit),
        n <= limit,
    ensures
        all_configured(in_config_order(picks, n), limit),
        forall|i: int|
            0 <= i < in_config_order(picks, n).len() ==> #[trigger] in_config_order(picks, n)[i].order
                < n,
        forall|i: int, j: int|
            0 <= i < j < in_config_order(picks, n).len() ==> #[trigger] in_config_order(picks, n)[i].order
                <= #[trigger] in_config_order(picks, n)[j].order,
    decreases n,
{
    if n > 0 {
        lemma_in_config_order(picks, n - 1, limit);
        lemma_at_position(picks, n - 1, limit);
        let before = in_config_order(picks, n - 1);
        let added = at_position(picks, n - 1);
        let all = before + added;
        assert forall|i: int| 0 <= i < all.len() implies #[trigger] all[i].always_shown
            && all[i].order < limit && all[i].order < n by {
            if i >= before.len() {
                assert(all[i] == added[i - before.len()]);
            } else {
                assert(all[i] == before[i]);
            }
        }
        assert forall|i: int, j: int| 0 <= i < j < all.len() implies #[trigger] all[i].order
            <= #[trigger] all[j].order by {
            if j < before.len() {
                assert(all[i] == before[i] && all[j] == before[j]);
            } else if i >= before.len() {
                assert(all[i] == added[i - before.len()] && all[j] == added[j - before.len()]);
            } else {
                assert(all[i] == before[i] && all[j] == added[j - before.len()]);
            }
        }
    }
}

/// Once fans are named in the configuration, that list is the selection:
/// every fan shown is a configured one, shown even when standing still, and
/// they come in the order the configuration writes them.
pub proof fn lemma_configured_fans_in_order(chips: Seq<FanChip>, configured: Seq<(String, String)>)
    requires
        configured.len() > 0,
    ensures
        forall|i: int|
            0 <= i < selected_fans(chips, configured).len() ==> #[trigger] selected_fans(
                chips,
                configured,
            )[i].always_shown && selected_fans(chips, configured)[i].order < configured.len(),
        forall|i: int, j: int|
            0 <= i < j < selected_fans(chips, configured).len() ==> #[trigger] selected_fans(
                chips,
                configured,
            )[i].order <= #[trigger] selected_fans(chips, configured)[j].order,
{
    lemma_discovered_configured(chips, configured, chips.len() as int);
    lemma_in_config_order(
        discovered_fans(chips, configured, chips.len() as int),
        configured.len() as int,
        configured.len() as int,
    );
}

/// Fan `a` comes before fan `b`: on an earlier chip, or on the same chip
/// with a lower number.
pub open spec fn fan_before(a: FanPick, b: FanPick) -> bool {
    a.chip < b.chip || (a.chip == b.chip && a.index < b.index)
}

/// Each chip lists its fan inputs by rising number, as they are found.
pub open spec fn inputs_ascending(chips: Seq<FanChip>) -> bool {
    forall|c: int, k: int, l: int|
        0 <= c < chips.len() && 0 <= k < l < chips[c].inputs@.len() ==> (#[trigger] chips[c].inputs@[k]).0
            < (#[trigger] chips[c].inputs@[l]).0
}

proof fn lemma_chip_picks_ascending(chips: Seq<FanChip>, c: int, configured: Seq<(String, String)>, n: int)
    requires
        inputs_ascending(chips),
        0 <= c < chips.len(),
        0 <= n <= chips[c].inputs@.len(),
    ensures
        forall|i: int|
            0 <= i < chip_picks(chips, c, configured, n).len() ==> (#[trigger] chip_picks(
                chips,
                c,
                configured,
                n,
            )[i]).chip == c && chip_picks(chips, c, configured, n)[i].index <= chips[c].inputs@[n
                - 1].0,
        forall|i: int, j: int|
            0 <= i < j < chip_picks(chips, c, configured, n).len() ==> fan_before(
                #[trigger] chip_picks(chips, c, configured, n)[i],
                #[trigger] chip_picks(chips, c, configured, n)[j],
            ),
    decreases n,
{
    if n > 0 {
        lemma_chip_picks_ascending(chips, c, configured, n - 1);
        let before = chip_picks(chips, c, configured, n - 1);
        let added = match fan_pick(chips, c, n - 1, configured) {
            Some(pick) => seq![pick],
            None => Seq::empty(),
        };
        let all = before + added;
        assert forall|i: int| 0 <= i < all.len() implies (#[trigger] all[i]).chip == c
            && all[i].index <= chips[c].inputs@[n - 1].0 by {
            if i < before.len() {
                assert(all[i] == before[i]);
                if n > 1 {
                    assert(chips[c].inputs@[n - 2].0 < chips[c].inputs@[n - 1].0);
                }
            } else {
                assert(all[i] == added[i - before.len()]);
            }
        }
        assert forall|i: int, j: int| 0 <= i < j < all.len() implies fan_before(
            #[trigger] all[i],
            #[trigger] all[j],
        ) by {
            if j < before.len() {
                assert(all[i] == before[i] && all[j] == before[j]);
            } else {
                assert(all[i] == before[i] && all[j] == added[j - before.len()]);
                assert(n > 1);
                assert(chips[c].inputs@[n - 2].0 < chips[c].inputs@[n - 1].0);
            }
        }
    }
}

proof fn lemma_discovered_ascending(chips: Seq<FanChip>, configured: Seq<(String, String)>, n: int)
    requires
        inputs_ascending(chips),
        0 <= n <= chips.len(),
    ensures
        forall|i: int|
            0 <= i < discovered_fans(chips, configured, n).len() ==> (#[trigger] discovered_fans(
                chips,
                configured,
                n,
            )[i]).chip < n,
        forall|i: int, j: int|
            0 <= i < j < discovered_fans(chips, configured, n).len() ==> fan_before(
                #[trigger] discovered_fans(chips, configured, n)[i],
                #[trigger] discovered_fans(chips, configured, n)[j],
            ),
    decreases n,
{
    if n > 0 {
        lemma_discovered_ascending(chips, configured, n - 1);
        lemma_chip_picks_ascending(chips, n - 1, configured, chips[n - 1].inputs@.len() as int);
        let before = discovered_fans(chips, configured, n - 1);
        let added = chip_picks(chips, n - 1, configured, chips[n - 1].inputs@.len() as int);
        let all = before + added;
        assert forall|i: int| 0 <= i < all.len() implies (#[trigger] all[i]).chip < n by {
            if i < before.len() {
                assert(all[i] == before[i]);
            } else {
                assert(all[i] == added[i - before.len()]);
            }
        }
        assert forall|i: int, j: int| 0 <= i < j < all.len() implies fan_before(
            #[trigger] all[i],
            #[trigger] all[j],
        ) by {
            if j < before.len() {
                assert(all[i] == before[i] && all[j] == before[j]);
            } else if i >= before.len() {
                assert(all[i] == added[i - before.len()] && all[j] == added[j - before.len()]);
            } else {
                assert(all[i] == before[i] && all[j] == added[j - before.len()]);
            }
        }
    }
}

/// With no fan named in the configuration, the fans come chip after chip,
/// in the order the chips are given (by name, then path: `chip_order`), and
/// on each chip by fan number.
pub proof fn lemma_unconfigured_fans_in_chip_order(chips: Seq<FanChip>, configured: Seq<(String, String)>)
    requires
        configured.len() == 0,
        inputs_ascending(chips),
    ensures
        forall|i: int, j: int|
            0 <= i < j < selected_fans(chips, configured).len() ==> fan_before(
                #[trigger] selected_fans(chips, configured)[i],
                #[trigger] selected_fans(chips, configured)[j],
            ),
{
    lemma_discovered_ascending(chips, configured, chips.len() as int);
}

/// With no fan configured, every fan input is picked, on its chip and under
/// its number, shown only while it spins, and labelled: by its label file
/// when there is one; else by its chip's name when it is that chip's only
/// fan input; else `fan<n>`, whatever its number `n`.
pub proof fn lemma_unconfigured_fan_labels(
    chips: Seq<FanChip>,
    c: int,
    k: int,
    configured: Seq<(String, String)>,
)
    requires
        configured.len() == 0,
        0 <= c < chips.len(),
        0 <= k < chips[c].inputs@.len(),
    ensures
        fan_pick(chips, c, k, configured) matches Some(pick) && {
            let (index, label_file) = chips[c].inputs@[k];
            &&& pick.chip == c
            &&& pick.index == index
            &&& !pick.always_shown
            &&& label_file matches Some(l) ==> pick.label == l@
            &&& label_file is None && chips[c].inputs@.len() == 1 ==> pick.label == chips[c].name@
            &&& label_file is None && chips[c].inputs@.len() > 1 ==> pick.label == "fan"@ + decimal(
                index as nat,
            )
        },
{
}

/// A fan named in the configuration under `<chip>/fan<n>` is picked with
/// the label written there (the first entry under that key), shown even
/// when standing still, at that entry's place; with fans configured, a fan
/// named nowhere is not picked.
pub proof fn lemma_configured_fan_labels(
    chips: Seq<FanChip>,
    c: int,
    k: int,
    configured: Seq<(String, String)>,
    p: int,
)
    requires
        0 <= c < chips.len(),
        0 <= k < chips[c].inputs@.len(),
        -1 <= p < configured.len(),
        p >= 0 ==> configured[p].0@ == fan_key(chips[c].name@, chips[c].inputs@[k].0),
        forall|j: int|
            0 <= j < configured.len() && (p < 0 || j < p) ==> (#[trigger] configured[j]).0@
                != fan_key(chips[c].name@, chips[c].inputs@[k].0),
    ensures
        p >= 0 ==> fan_pick(chips, c, k, configured) == Some(
            FanPick {
                chip: c,
                index: chips[c].inputs@[k].0,
                label: configured[p].1@,
                always_shown: true,
                order: p as usize,
            },
        ),
        p < 0 && configured.len() > 0 ==> fan_pick(chips, c, k, configured) is None,
{
    let key = fan_key(chips[c].name@, chips[c].inputs@[k].0);
    lemma_configured_from(configured, key, p, 0);
}

proof fn lemma_configured_from(configured: Seq<(String, String)>, key: Seq<char>, p: int, from: int)
    requires
        -1 <= p < configured.len(),
        p >= 0 ==> configured[p].0@ == key,
        forall|j: int|
            0 <= j < configured.len() && (p < 0 || j < p) ==> (#[trigger] configured[j]).0@ != key,
        0 <= from,
        p >= 0 ==> from <= p,
    ensures
        configured_at(configured, key, from) == if p >= 0 {
            Some(p)
        } else {
            None::<int>
        },
    decreases configured.len() - from,
{
    if from < configured.len() && (p < 0 || from < p) {
        assert(configured[from].0@ != key);
        lemma_configured_from(configured, key, p, from + 1);
    }
}

/// How many fan inputs the first `n` chips have.
pub open spec fn fan_inputs(chips: Seq<FanChip>, n: int) -> int
    decreases n,
{
    if n <= 0 {
        0
    } else {
        fan_inputs(chips, n - 1) + chips[n - 1].inputs@.len()
    }
}

proof fn lemma_chip_picks_all(chips: Seq<FanChip>, c: int, configured: Seq<(String, String)>, n: int)
    requires
        configured.len() == 0,
        n >= 0,
    ensures
        chip_picks(chips, c, configured, n).len() == n,
    decreases n,
{
    if n > 0 {
        lemma_chip_picks_all(chips, c, configured, n - 1);
        assert(fan_pick(chips, c, n - 1, configured) is Some);
    }
}

/// With no fan named in the configuration, every fan input found is shown.
pub proof fn lemma_unconfigured_fans_all_shown(chips: Seq<FanChip>, configured: Seq<(String, String)>)
    requires
        configured.len() == 0,
    ensures
        selected_fans(chips, configured).len() == fan_inputs(chips, chips.len() as int),
{
    lemma_discovered_all(chips, configured, chips.len() as int);
}

proof fn lemma_discovered_all(chips: Seq<FanChip>, configured: Seq<(String, String)>, n: int)
    requires
        configured.len() == 0,
        n <= chips.len(),
    ensures
        discovered_fans(chips, configured, n).len() == fan_inputs(chips, n),
    decreases n,
{
    if n > 0 {
        lemma_discovered_all(chips, configured, n - 1);
        lemma_chip_picks_all(chips, n - 1, configured, chips[n - 1].inputs@.len() as int);
    }
}

/// The views of `choices`, in order.
pub open spec fn picks(choices: Seq<FanChoice>) -> Seq<FanPick> {
    choices.map_values(|c: FanChoice| c@)
}

fn configured_position(configured: &[(String, String)], key: &str) -> (position: Option<usize>)
    ensures
        position matches Some(p) ==> p < configured@.len() && configured_at(configured@, key@, 0)
            == Some(p as int),
        position is None ==> configured_at(configured@, key@, 0) is None,
{
    let mut p: usize = 0;
    while p < configured.len()
        invariant
            p <= configured@.len(),
            configured_at(configured@, key@, p as int) == configured_at(configured@, key@, 0),
        decreases configured@.len() - p,
    {
        if same_text(configured[p].0.as_str(), key) {
            return Some(p);
        }
        p = p + 1;
    }
    None
}

fn pick_fan(chips: &[FanChip], c: usize, k: usize, configured: &[(String, String)]) -> (pick: Option<
    FanChoice,
>)
    requires
        c < chips@.len(),
        k < chips@[c as int].inputs@.len(),
    ensures
        match pick {
            Some(choice) => fan_pick(chips@, c as int, k as int, configured@) == Some(choice@),
            None => fan_pick(chips@, c as int, k as int, configured@) is None,
        },
{
    let chip = &chips[c];
    let index = chip.inputs[k].0;
    let mut key = chip.name.clone();
    key.append("/fan");
    let number = decimal_string(index as u64);
    key.append(number.as_str());
    assert(key@ == fan_key(chip.name@, index));
    let position = configured_position(configured, key.as_str());
    if position.is_none() && configured.len() > 0 {
        return None;
    }
    let label = match position {
        Some(p) => configured[p].1.clone(),
        None => match &chip.inputs[k].1 {
            Some(l) => l.clone(),
            None => if chip.inputs.len() == 1 {
                chip.name.clone()
            } else {
                let mut label = String::new();
                label.append("fan");
                label.append(number.as_str());
                label
            },
        },
    };
    let order = match position {
        Some(p) => p,
        None => usize::MAX,
    };
    let choice = FanChoice { chip: c, index, label, always_shown: position.is_some(), order };
    Some(choice)
}

fn copy_choice(choice: &FanChoice) -> (copy: FanChoice)
    ensures
        copy@ == choice@,
{
    FanChoice {
        chip: choice.chip,
        index: choice.index,
        label: choice.label.clone(),
        always_shown: choice.always_shown,
        order: choice.order,
    }
}

/// The fans the dashboard reads, from the fan inputs found on each chip
/// (chips in the order they are listed) and the configured labels, keyed by
/// `<chip>/fan<n>`, in the order the configuration writes them.
pub fn select_fans(chips: &[FanChip], configured: &[(String, String)]) -> (fans: Vec<FanChoice>)
    ensures
        picks(fans@) == selected_fans(chips@, configured@),
{
    let mut found: Vec<FanChoice> = Vec::new();
    let mut c: usize = 0;
    while c < chips.len()
        invariant
            c <= chips@.len(),
            picks(found@) == discovered_fans(chips@, configured@, c as int),
        decreases chips@.len() - c,
    {
        let mut k: usize = 0;
        let ghost before = picks(found@);
        while k < chips[c].inputs.len()
            invariant
                c < chips@.len(),
                k <= chips@[c as int].inputs@.len(),
                picks(found@) == before + chip_picks(chips@, c as int, configured@, k as int),
            decreases chips@[c as int].inputs@.len() - k,
        {
            let ghost prior = picks(found@);
            match pick_fan(chips, c, k, configured) {
                Some(choice) => {
                    found.push(choice);
                    assert(picks(found@) =~= prior.push(choice@));
                },
                None => {},
            }
            assert(picks(found@) =~= before + chip_picks(chips@, c as int, configured@, k + 1));
            k = k + 1;
        }
        c = c + 1;
    }
    if configured.len() == 0 {
        return found;
    }
    let mut fans: Vec<FanChoice> = Vec::new();
    let mut p: usize = 0;
    while p < configured.len()
        invariant
            p <= configured@.len(),
            picks(fans@) == in_config_order(picks(found@), p as int),
        decreases configured@.len() - p,
    {
        let ghost before = picks(fans@);
        let mut i: usize = 0;
        while i < found.len()
            invariant
                i <= found@.len(),
                picks(fans@) == before + at_position(picks(found@).take(i as int), p as int),
            decreases found@.len() - i,
        {
            assert(picks(found@).take(i + 1).drop_last() =~= picks(found@).take(i as int));
            let ghost prior = picks(fans@);
            if found[i].order == p {
                fans.push(copy_choice(&found[i]));
                assert(picks(fans@) =~= prior.push(found@[i as int]@));
            }
            assert(picks(fans@) =~= before + at_position(picks(found@).take(i + 1), p as int));
            i = i + 1;
        }
        assert(picks(found@).take(found@.len() as int) =~= picks(found@));
        p = p + 1;
    }
    fans
}

/// A `Fan` as contracts speak of it: its label and speed.
pub open spec fn fan_reading(fan: Fan) -> (Seq<char>, u32) {
    (fan.label@, fan.rpm)
}

/// The fans among the first `n` of `fans` that the dashboard shows, given
/// their speeds (nothing for a fan whose speed cannot be read): those that
/// spin, and those configured, which show even when standing still.
pub open spec fn shown_fans(fans: Seq<FanChoice>, rpms: Seq<Option<u32>>, n: int) -> Seq<
    (Seq<char>, u32),
>
    decreases n,
{
    if n <= 0 {
        Seq::empty()
    } else {
        shown_fans(fans, rpms, n - 1) + match rpms[n - 1] {
            Some(rpm) => if rpm > 0 || fans[n - 1].always_shown {
                seq![(fans[n - 1].label@, rpm)]
            } else {
                Seq::empty()
            },
            None => Seq::empty(),
        }
    }
}

/// A speed was read, and the fan turns.
pub open spec fn spins(rpm: Option<u32>) -> bool {
    rpm matches Some(r) && r > 0
}

/// A fan standing still is shown only when configured: with none
/// configured, every fan shown spins. When every fan spins, all are shown,
/// in order, each with its own speed.
pub proof fn lemma_still_fans_hide(fans: Seq<FanChoice>, rpms: Seq<Option<u32>>, n: int)
    requires
        0 <= n <= fans.len(),
        n <= rpms.len(),
    ensures
        (forall|i: int| 0 <= i < n ==> !(#[trigger] fans[i]).always_shown) ==> forall|k: int|
            0 <= k < shown_fans(fans, rpms, n).len() ==> (#[trigger] shown_fans(fans, rpms, n)[k]).1
                > 0,
        (forall|i: int| 0 <= i < n ==> spins(#[trigger] rpms[i])) ==> {
            &&& shown_fans(fans, rpms, n).len() == n
            &&& forall|k: int|
                0 <= k < n ==> #[trigger] shown_fans(fans, rpms, n)[k] == (
                    fans[k].label@,
                    rpms[k].unwrap(),
                )
        },
    decreases n,
{
    if n > 0 {
        lemma_still_fans_hide(fans, rpms, n - 1);
        let before = shown_fans(fans, rpms, n - 1);
        let all = shown_fans(fans, rpms, n);
        assert forall|k: int| 0 <= k < before.len() implies all[k] == before[k] by {}
        if forall|i: int| 0 <= i < n ==> !(#[trigger] fans[i]).always_shown {
            assert(forall|i: int| 0 <= i < n - 1 ==> !(#[trigger] fans[i]).always_shown);
            assert(!fans[n - 1].always_shown);
        }
        if forall|i: int| 0 <= i < n ==> spins(#[trigger] rpms[i]) {
            assert(forall|i: int| 0 <= i < n - 1 ==> spins(#[trigger] rpms[i]));
            assert(spins(rpms[n - 1]));
        }
    }
}

/// The fans to show, with their speeds: `rpms[i]` is the speed read for
/// `fans[i]`.
pub fn visible_fans<'a>(fans: &'a [FanChoice], rpms: &[Option<u32>]) -> (shown: Vec<Fan<'a>>)
    requires
        rpms@.len() == fans@.len(),
    ensures
        shown@.map_values(|f: Fan<'a>| fan_reading(f)) == shown_fans(
            fans@,
            rpms@,
            fans@.len() as int,
        ),
{
    let mut shown: Vec<Fan<'a>> = Vec::new();
    let mut i: usize = 0;
    while i < fans.len()
        invariant
            i <= fans@.len(),
            rpms@.len() == fans@.len(),
            shown@.map_values(|f: Fan<'a>| fan_reading(f)) == shown_fans(fans@, rpms@, i as int),
        decreases fans@.len() - i,
    {
        let ghost before = shown@;
        match rpms[i] {
            Some(rpm) => {
                if rpm > 0 || fans[i].always_shown {
                    let fan = Fan { label: fans[i].label.as_str(), rpm };
                    shown.push(fan);
                    assert(shown@ =~= before.push(fan));
                }
            },
            None => {},
        }
        assert(shown@.map_values(|f: Fan<'a>| fan_reading(f)) =~= shown_fans(
            fans@,
            rpms@,
            i + 1,
        ));
        i = i + 1;
    }
    shown
}

} // verus!
