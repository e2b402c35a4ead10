//! What an audio file's tags, properties and name say about it.
//!
//! The file itself is opened elsewhere: what its tags hold comes in as plain
//! text, and goes out as the data that a library shows. A missing track number
//! is recovered from the file's name.
use base64::Engine;
use vstd::prelude::*;

verus! {

/// The extensions of the files that can be decoded.
pub const AUDIO_EXTENSIONS: [&'static str; 9] = [
    "mp3", "flac", "wav", "m4a", "aac", "ogg", "opus", "aif", "aiff",
];

/// The container formats that are always lossless. An `m4a` can hold either
/// kind and its codec is not looked at, so it counts as lossy.
pub const LOSSLESS_EXTENSIONS: [&'static str; 4] = ["flac", "wav", "aif", "aiff"];

/// Embedded pictures larger than this count as absent.
pub const MAX_EMBEDDED_COVER_BYTES: usize = 10_485_760;

// ── text ─────────────────────────────────────────────────────────────────────

/// Whether a character is white space: whether it has Unicode's White_Space
/// property.
pub open spec fn white(c: char) -> bool {
    let n = c as u32;
    ||| 0x9 <= n <= 0xd
    ||| n == 0x20
    ||| n == 0x85
    ||| n == 0xa0
    ||| n == 0x1680
    ||| 0x2000 <= n <= 0x200a
    ||| n == 0x2028
    ||| n == 0x2029
    ||| n == 0x202f
    ||| n == 0x205f
    ||| n == 0x3000
}

/// Whether a character is white space.
pub fn is_white(c: char) -> (yes: bool)
    ensures
        yes == white(c),
{
    let n: u32 = c as u32;
    (0x9 <= n && n <= 0xd) || n == 0x20 || n == 0x85 || n == 0xa0 || n == 0x1680 || (0x2000 <= n
        && n <= 0x200a) || n == 0x2028 || n == 0x2029 || n == 0x202f || n == 0x205f || n == 0x3000
}

/// `String::push`: the character is appended to the text.
#[verifier::external_body]
fn push_char(text: &mut String, c: char)
    ensures
        final(text)@ == old(text)@.push(c),
{
    text.push(c)
}

/// The characters of `text`.
fn chars_of(text: &str) -> (chars: Vec<char>)
    ensures
        chars@ == text@,
{
    let mut chars: Vec<char> = Vec::new();
    for c in it: text.chars()
        invariant
            it.seq() == text@,
            chars@ == it.seq().take(it.index() as int),
    {
        chars.push(c);
    }
    assert(chars@ =~= text@);
    chars
}

/// The text of some characters.
fn text_of(chars: &[char]) -> (text: String)
    ensures
        text@ == chars@,
{
    let mut text: String = String::new();
    let mut i: usize = 0;
    assert(chars@.take(0) =~= Seq::<char>::empty());
    while i < chars.len()
        invariant
            i <= chars@.len(),
            text@ == chars@.take(i as int),
        decreases chars@.len() - i,
    {
        push_char(&mut text, chars[i]);
        i += 1;
        assert(chars@.take(i as int) =~= chars@.take(i - 1).push(chars@[i - 1]));
    }
    assert(chars@.take(i as int) =~= chars@);
    text
}

/// Whether two texts are the same.
fn same(a: &str, b: &str) -> (yes: bool)
    ensures
        yes == (a@ == b@),
{
    let left: Vec<char> = chars_of(a);
    let right: Vec<char> = chars_of(b);
    if left.len() != right.len() {
        return false;
    }
    let mut i: usize = 0;
    while i < left.len()
        invariant
            i <= left@.len() == right@.len(),
            left@ == a@,
            right@ == b@,
            forall|j: int| 0 <= j < i ==> left@[j] == right@[j],
        decreases left@.len() - i,
    {
        if left[i] != right[i] {
            return false;
        }
        i += 1;
    }
    assert(left@ =~= right@);
    true
}

/// Whether `text` is one of `list`.
pub open spec fn listed(list: Seq<&str>, text: Seq<char>) -> bool {
    exists|i: int| 0 <= i < list.len() && #[trigger] list[i]@ == text
}

fn is_listed(list: &[&str], text: &str) -> (yes: bool)
    ensures
        yes == listed(list@, text@),
{
    let mut i: usize = 0;
    while i < list.len()
        invariant
            i <= list@.len(),
            forall|j: int| 0 <= j < i ==> #[trigger] list@[j]@ != text@,
        decreases list@.len() - i,
    {
        if same(list[i], text) {
            return true;
        }
        i += 1;
    }
    false
}

/// The lower case of an ASCII letter; any other character as it is.
pub open spec fn lower(c: char) -> char {
    if 'A' <= c && c <= 'Z' {
        (c as u32 + 32) as char
    } else {
        c
    }
}

/// The upper case of an ASCII letter; any other character as it is.
pub open spec fn upper(c: char) -> char {
    if 'a' <= c && c <= 'z' {
        (c as u32 - 32) as char
    } else {
        c
    }
}

/// Every character in lower case.
pub open spec fn lowered(text: Seq<char>) -> Seq<char> {
    Seq::new(text.len(), |i: int| lower(text[i]))
}

/// Every character in upper case.
pub open spec fn raised(text: Seq<char>) -> Seq<char> {
    Seq::new(text.len(), |i: int| upper(text[i]))
}

fn to_lower(text: &str) -> (out: String)
    ensures
        out@ == lowered(text@),
{
    let chars: Vec<char> = chars_of(text);
    let mut out: Vec<char> = Vec::with_capacity(chars.len());
    let mut i: usize = 0;
    while i < chars.len()
        invariant
            i <= chars@.len(),
            out@ == lowered(chars@).take(i as int),
        decreases chars@.len() - i,
    {
        let c: char = chars[i];
        out.push(
            if 'A' <= c && c <= 'Z' {
                (c as u8 + 32) as char
            } else {
                c
            },
        );
        i += 1;
    }
    assert(out@ =~= lowered(chars@));
    text_of(out.as_slice())
}

fn to_upper(text: &str) -> (out: String)
    ensures
        out@ == raised(text@),
{
    let chars: Vec<char> = chars_of(text);
    let mut out: Vec<char> = Vec::with_capacity(chars.len());
    let mut i: usize = 0;
    while i < chars.len()
        invariant
            i <= chars@.len(),
            out@ == raised(chars@).take(i as int),
        decreases chars@.len() - i,
    {
        let c: char = chars[i];
        out.push(
            if 'a' <= c && c <= 'z' {
                (c as u8 - 32) as char
            } else {
                c
            },
        );
        i += 1;
    }
    assert(out@ =~= raised(chars@));
    text_of(out.as_slice())
}

/// `text` without the white space that it begins with.
pub open spec fn without_lead(text: Seq<char>) -> Seq<char>
    decreases text.len(),
{
    if text.len() > 0 && white(text[0]) {
        without_lead(text.skip(1))
    } else {
        text
    }
}

/// `text` without the white space that it ends with.
pub open spec fn without_tail(text: Seq<char>) -> Seq<char>
    decreases text.len(),
{
    if text.len() > 0 && white(text.last()) {
        without_tail(text.drop_last())
    } else {
        text
    }
}

/// `text` without the white space around it.
pub open spec fn trimmed(text: Seq<char>) -> Seq<char> {
    without_tail(without_lead(text))
}

/// Where the text without its white space begins and ends.
fn trim_bounds(chars: &[char]) -> (bounds: (usize, usize))
    ensures
        bounds.0 <= bounds.1 <= chars@.len(),
        chars@.subrange(bounds.0 as int, bounds.1 as int) == trimmed(chars@),
{
    let mut from: usize = 0;
    assert(chars@.skip(0) =~= chars@);
    while from < chars.len() && is_white(chars[from])
        invariant
            from <= chars@.len(),
            without_lead(chars@.skip(from as int)) == without_lead(chars@),
        decreases chars@.len() - from,
    {
        assert(chars@.skip(from as int).skip(1) =~= chars@.skip(from + 1));
        from += 1;
    }
    let ghost lead = chars@.skip(from as int);
    let mut to: usize = chars.len();
    assert(chars@.subrange(from as int, to as int) =~= lead);
    while to > from && is_white(chars[to - 1])
        invariant
            from <= to <= chars@.len(),
            without_tail(chars@.subrange(from as int, to as int)) == without_tail(lead),
        decreases to - from,
    {
        assert(chars@.subrange(from as int, to as int).drop_last() =~= chars@.subrange(
            from as int,
            to - 1,
        ));
        to -= 1;
    }
    (from, to)
}

/// Whether a character is one of the ten digits.
pub open spec fn digit(c: char) -> bool {
    '0' <= c && c <= '9'
}

/// The number that `n` digits say, read from the left.
pub open spec fn digits_value(text: Seq<char>, n: nat) -> nat
    decreases n,
{
    if n == 0 {
        0
    } else {
        10 * digits_value(text, (n - 1) as nat) + (text[n - 1] as u32 - '0' as u32) as nat
    }
}

/// `text` without the plus sign that it may begin with.
pub open spec fn unsigned(text: Seq<char>) -> Seq<char> {
    if text.len() > 0 && text[0] == '+' {
        text.skip(1)
    } else {
        text
    }
}

/// Whether `text` is one digit or more, and nothing else.
pub open spec fn all_digits(text: Seq<char>) -> bool {
    text.len() > 0 && (forall|i: int| 0 <= i < text.len() ==> digit(#[trigger] text[i]))
}

/// The number that `text` says: digits, one at least, with at most a plus sign
/// before them, and no more than fits thirty-two bits.
pub open spec fn number_in(text: Seq<char>) -> Option<u32> {
    let digits = unsigned(text);
    if all_digits(digits) && digits_value(digits, digits.len()) <= u32::MAX {
        Some(digits_value(digits, digits.len()) as u32)
    } else {
        None
    }
}

proof fn lemma_digits_grow(text: Seq<char>, n: nat, m: nat)
    requires
        n <= m <= text.len(),
        forall|i: int| 0 <= i < text.len() ==> digit(#[trigger] text[i]),
    ensures
        digits_value(text, n) <= digits_value(text, m),
    decreases m,
{
    if n < m {
        lemma_digits_grow(text, n, (m - 1) as nat);
        assert(digit(text[m - 1]));
    }
}

fn parse_number(chars: &[char]) -> (number: Option<u32>)
    ensures
        number == number_in(chars@),
{
    let from: usize = if chars.len() > 0 && chars[0] == '+' {
        1
    } else {
        0
    };
    let ghost digits = chars@.skip(from as int);
    assert(chars@.skip(0) =~= chars@);
    if chars.len() == from {
        return None;
    }
    let mut i: usize = from;
    while i < chars.len()
        invariant
            from <= i <= chars@.len(),
            digits == chars@.skip(from as int),
            forall|j: int| 0 <= j < i - from ==> digit(#[trigger] digits[j]),
            digits == unsigned(chars@),
        decreases chars@.len() - i,
    {
        let c: char = chars[i];
        assert(digits[i - from] == c);
        if !('0' <= c && c <= '9') {
            assert(0 <= i - from < digits.len() && !digit(digits[i - from]));
            return None;
        }
        i += 1;
    }
    let mut value: u64 = 0;
    let mut i: usize = from;
    while i < chars.len()
        invariant
            from <= i <= chars@.len(),
            digits == chars@.skip(from as int),
            forall|j: int| 0 <= j < digits.len() ==> digit(#[trigger] digits[j]),
            digits == unsigned(chars@),
            digits.len() > 0,
            value == digits_value(digits, (i - from) as nat),
            value <= u32::MAX,
        decreases chars@.len() - i,
    {
        let c: char = chars[i];
        assert(digits[i - from] == c);
        value = 10 * value + (c as u32 - '0' as u32) as u64;
        i += 1;
        proof {
            lemma_digits_grow(digits, (i - from) as nat, digits.len());
        }
        if value > u32::MAX as u64 {
            return None;
        }
    }
    Some(value as u32)
}

// ── a file's name ────────────────────────────────────────────────────────────

/// How many characters `text` begins with that `wanted` accepts.
pub open spec fn run(text: Seq<char>, wanted: spec_fn(char) -> bool) -> nat
    decreases text.len(),
{
    if text.len() > 0 && wanted(text[0]) {
        1 + run(text.skip(1), wanted)
    } else {
        0
    }
}

pub proof fn lemma_run(text: Seq<char>, wanted: spec_fn(char) -> bool, n: nat)
    requires
        n <= text.len(),
        forall|i: int| 0 <= i < n ==> wanted(#[trigger] text[i]),
        n == text.len() || !wanted(text[n as int]),
    ensures
        run(text, wanted) == n,
    decreases n,
{
    if n > 0 {
        assert(wanted(text[0]));
        let rest = text.skip(1);
        assert forall|i: int| 0 <= i < n - 1 implies wanted(#[trigger] rest[i]) by {
            assert(rest[i] == text[i + 1]);
        }
        lemma_run(rest, wanted, (n - 1) as nat);
    }
}

proof fn lemma_run_is_wanted(text: Seq<char>, wanted: spec_fn(char) -> bool)
    ensures
        run(text, wanted) <= text.len(),
        forall|i: int| 0 <= i < run(text, wanted) ==> wanted(#[trigger] text[i]),
    decreases text.len(),
{
    if text.len() > 0 && wanted(text[0]) {
        let rest = text.skip(1);
        lemma_run_is_wanted(rest, wanted);
        assert forall|i: int| 0 <= i < run(text, wanted) implies wanted(#[trigger] text[i]) by {
            if i > 0 {
                assert(rest[i - 1] == text[i]);
            }
        }
    }
}

/// How many digits `text` begins with.
pub open spec fn leading_digits(text: Seq<char>) -> nat {
    run(text, |c: char| digit(c))
}

fn count_digits(chars: &[char], from: usize) -> (n: usize)
    requires
        from <= chars@.len(),
    ensures
        n == leading_digits(chars@.skip(from as int)),
        n <= chars@.len() - from,
        forall|i: int| 0 <= i < n ==> digit(#[trigger] chars@.skip(from as int)[i]),
{
    let mut i: usize = from;
    let ghost rest = chars@.skip(from as int);
    while i < chars.len() && '0' <= chars[i] && chars[i] <= '9'
        invariant
            from <= i <= chars@.len(),
            rest == chars@.skip(from as int),
            forall|j: int| 0 <= j < i - from ==> digit(#[trigger] rest[j]),
        decreases chars@.len() - i,
    {
        assert(rest[i - from] == chars@[i as int]);
        i += 1;
    }
    proof {
        if i < chars@.len() {
            assert(rest[i - from] == chars@[i as int]);
        }
        lemma_run(rest, |c: char| digit(c), (i - from) as nat);
    }
    i - from
}

/// Whether what follows some digits marks them as a number of their own: the
/// end, white space or one of `-`, `.` and `_`.
pub open spec fn separated(rest: Seq<char>) -> bool {
    rest.len() == 0 || white(rest[0]) || rest[0] == '-' || rest[0] == '.' || rest[0] == '_'
}

fn starts_with_separator(chars: &[char], from: usize) -> (yes: bool)
    requires
        from <= chars@.len(),
    ensures
        yes == separated(chars@.skip(from as int)),
{
    if from == chars.len() {
        return true;
    }
    let c: char = chars[from];
    is_white(c) || c == '-' || c == '.' || c == '_'
}

/// A disc and track position read out of a file's name.
#[derive(Debug, Clone, Copy, PartialEq, Eq, Structural)]
pub struct FilenamePosition {
    pub disc: Option<u32>,
    pub track: Option<u32>,
}

impl Default for FilenamePosition {
    fn default() -> (position: Self)
        ensures
            position == no_position(),
    {
        FilenamePosition { disc: None, track: None }
    }
}

/// The position of a file whose name says none.
pub open spec fn no_position() -> FilenamePosition {
    FilenamePosition { disc: None, track: None }
}

/// The number that the first `n` digits of `text` say; zero is no position.
pub open spec fn place(text: Seq<char>, n: nat) -> Option<u32> {
    if digits_value(text, n) > 0 {
        Some(digits_value(text, n) as u32)
    } else {
        None
    }
}

/// Whether `name` begins with a disc and a track: one digit, a dash or an
/// underscore, one to three digits, and a separator after them.
pub open spec fn paired(name: Seq<char>) -> bool {
    let after = name.skip(2);
    &&& leading_digits(name) == 1
    &&& name.len() > 1
    &&& name[1] == '-' || name[1] == '_'
    &&& 1 <= leading_digits(after) <= 3
    &&& separated(after.skip(leading_digits(after) as int))
}

/// The position that a file's name without its extension says. Only leading
/// digits count, three at most, and only when something separates them from
/// the title.
pub open spec fn position_of(stem: Seq<char>) -> FilenamePosition {
    let name = trimmed(stem);
    let n = leading_digits(name);
    if paired(name) {
        FilenamePosition {
            disc: place(name, 1),
            track: place(name.skip(2), leading_digits(name.skip(2))),
        }
    } else if 1 <= n <= 3 && separated(name.skip(n as int)) {
        FilenamePosition { disc: None, track: place(name, n) }
    } else {
        no_position()
    }
}

/// Reads the number that up to three digits say.
fn read_place(chars: &[char], from: usize, n: usize) -> (found: Option<u32>)
    requires
        from + n <= chars@.len(),
        n <= 3,
        forall|i: int| 0 <= i < n ==> digit(#[trigger] chars@.skip(from as int)[i]),
    ensures
        found == place(chars@.skip(from as int), n as nat),
{
    let ghost text = chars@.skip(from as int);
    let mut value: u32 = 0;
    let mut i: usize = 0;
    assert(chars.len() <= usize::MAX);
    while i < n
        invariant
            i <= n <= 3,
            from + n <= chars@.len() <= usize::MAX,
            text == chars@.skip(from as int),
            forall|j: int| 0 <= j < n ==> digit(#[trigger] text[j]),
            value == digits_value(text, i as nat),
            i == 0 ==> value == 0,
            i == 1 ==> value <= 9,
            i == 2 ==> value <= 99,
            value <= 999,
        decreases n - i,
    {
        let c: char = chars[from + i];
        assert(text[i as int] == c);
        value = 10 * value + (c as u32 - '0' as u32);
        i += 1;
    }
    if value > 0 {
        Some(value)
    } else {
        None
    }
}

/// Reads a position out of a file's name without its extension:
/// `07 - Alive`, `2-03 Reprise`, `104 Title`. Four digits are a year, and
/// digits that run into the title are part of it.
pub fn position_in_stem(stem: &str) -> (position: FilenamePosition)
    ensures
        position == position_of(stem@),
{
    let text: Vec<char> = chars_of(stem);
    let (from, to) = trim_bounds(text.as_slice());
    let name: &[char] = vstd::slice::slice_subrange(text.as_slice(), from, to);
    assert(name@.skip(0) =~= name@);
    let n: usize = count_digits(name, 0);
    if n == 1 && name.len() > 1 && (name[1] == '-' || name[1] == '_') {
        let m: usize = count_digits(name, 2);
        assert(name@.skip(2).skip(m as int) =~= name@.skip(2 + m));
        if 1 <= m && m <= 3 && starts_with_separator(name, 2 + m) {
            return FilenamePosition { disc: read_place(name, 0, 1), track: read_place(name, 2, m) };
        }
    }
    if n == 0 || n > 3 || !starts_with_separator(name, n) {
        return FilenamePosition { disc: None, track: None };
    }
    FilenamePosition { disc: None, track: read_place(name, 0, n) }
}

/// What follows the last `mark` in `text`: all of it where there is none.
pub open spec fn after_last(text: Seq<char>, mark: char) -> Seq<char>
    decreases text.len(),
{
    if text.len() == 0 || text.last() == mark {
        Seq::empty()
    } else {
        after_last(text.drop_last(), mark).push(text.last())
    }
}

/// Whether a character parts the components of a path, on one system or the
/// other.
pub open spec fn parts_path(c: char) -> bool {
    c == '/' || c == '\\'
}

/// Whether `path` begins with two separators, and so may name a share.
pub open spec fn shared_path(path: Seq<char>) -> bool {
    path.len() > 1 && parts_path(path[0]) && parts_path(path[1])
}

/// Whether `path` begins with a drive.
pub open spec fn has_drive(path: Seq<char>) -> bool {
    &&& path.len() > 1
    &&& path[1] == ':'
    &&& ('a' <= path[0] <= 'z' || 'A' <= path[0] <= 'Z')
}

/// `path` with a slash for every backslash.
pub open spec fn slashed(path: Seq<char>) -> Seq<char> {
    path.map_values(
        |c: char|
            if c == '\\' {
                '/'
            } else {
                c
            },
    )
}

/// `path` as a system with drives and backslashes reads it: without the drive,
/// and with a slash for every backslash.
pub open spec fn driveless(path: Seq<char>) -> Seq<char> {
    if has_drive(path) {
        slashed(path).skip(2)
    } else {
        slashed(path)
    }
}

/// Whether `path` reads the same on every system: it holds no backslash and
/// begins with neither a drive nor a share.
pub open spec fn plain_path(path: Seq<char>) -> bool {
    &&& !path.contains('\\')
    &&& !(path.len() > 1 && path[1] == ':')
    &&& !(path.len() > 1 && path[0] == '/' && path[1] == '/')
}

/// A path that reads the same on every system is no share, and reads as it
/// stands.
pub proof fn a_plain_path_reads_as_it_stands(path: Seq<char>)
    requires
        plain_path(path),
    ensures
        !shared_path(path),
        driveless(path) == path,
{
    assert forall|i: int| 0 <= i < path.len() implies path[i] != '\\' by {
        if path[i] == '\\' {
            assert(path.contains('\\'));
        }
    }
    assert(slashed(path) =~= path);
}

/// The last component of a path that names something. Slashes and single dots
/// at the end are passed over; a path that ends in its parent directory, or in
/// nothing but a root or a dot, names no file.
pub open spec fn file_name(path: Seq<char>) -> Option<Seq<char>>
    decreases path.len(),
{
    let name = after_last(path, '/');
    let within = name.len() < path.len();
    if name == seq!['.', '.'] {
        None
    } else if name.len() > 0 && name != seq!['.'] {
        Some(name)
    } else if within {
        file_name(path.take(path.len() - name.len() - 1))
    } else {
        None
    }
}

/// A slash behind a path does not change which file it names.
pub proof fn a_slash_at_the_end_does_not_matter(path: Seq<char>)
    ensures
        file_name(path.push('/')) == file_name(path),
{
    let longer = path.push('/');
    let name = after_last(longer, '/');
    assert(name =~= Seq::<char>::empty());
    assert(longer.take(longer.len() - 1) =~= path);
}

/// What follows the last dot of a file's name: nothing where it has none, or
/// none but the one that it begins with.
pub open spec fn extension_text(path: Seq<char>) -> Option<Seq<char>> {
    match file_name(path) {
        Some(name) => {
            let extension = after_last(name, '.');
            if extension.len() + 2 <= name.len() {
                Some(extension)
            } else {
                None
            }
        },
        None => None,
    }
}

/// A file's name without its last dot and what follows it: all of it where
/// there is no extension.
pub open spec fn stem_text(path: Seq<char>) -> Option<Seq<char>> {
    match (file_name(path), extension_text(path)) {
        (Some(name), Some(extension)) => Some(name.take(name.len() - extension.len() - 1)),
        (name, _) => name,
    }
}

/// The last component by slashes and backslashes is the end of the one by
/// slashes alone, whatever is left out at the front.
proof fn lemma_names_end_alike(path: Seq<char>, k: int)
    requires
        0 <= k <= path.len(),
    ensures
        ({
            let long = after_last(path, '/');
            let short = after_last(slashed(path).skip(k), '/');
            short.len() <= long.len() && short == long.skip(long.len() - short.len())
        }),
    decreases path.len(),
{
    let long = after_last(path, '/');
    let text = slashed(path).skip(k);
    let short = after_last(text, '/');
    if k == path.len() || text.last() == '/' {
        assert(short =~= long.skip(long.len() as int));
    } else {
        let rest = path.drop_last();
        lemma_names_end_alike(rest, k);
        assert(slashed(rest).skip(k) =~= text.drop_last());
        assert(path.last() == text.last());
        let (l, s) = (after_last(rest, '/'), after_last(text.drop_last(), '/'));
        assert(short =~= long.skip(long.len() - short.len()));
    }
}

/// What follows the last mark depends on the end of the text alone.
proof fn lemma_ends_follow_alike(long: Seq<char>, short: Seq<char>, mark: char)
    requires
        short.len() <= long.len(),
        short == long.skip(long.len() - short.len()),
        after_last(short, mark).len() < short.len(),
    ensures
        after_last(long, mark) == after_last(short, mark),
    decreases short.len(),
{
    assert(long.last() == short.last());
    if short.last() != mark {
        let (l, s) = (long.drop_last(), short.drop_last());
        assert(s =~= l.skip(l.len() - s.len()));
        lemma_ends_follow_alike(l, s, mark);
    }
}

/// What is left behind the last mark is no longer than the text, and the last
/// character is kept unless it is the mark.
proof fn lemma_after_last(text: Seq<char>, mark: char)
    ensures
        after_last(text, mark).len() <= text.len(),
        text.len() > 0 && text.last() != mark ==> after_last(text, mark).len() > 0 && after_last(
            text,
            mark,
        ).last() == text.last(),
    decreases text.len(),
{
    if text.len() > 0 && text.last() != mark {
        lemma_after_last(text.drop_last(), mark);
    }
}

/// A file that has an extension by slashes and backslashes has the same one by
/// slashes alone: it reads the same on every system, whatever drive and
/// directories stand before it. The path must end in the file's name.
pub proof fn an_extension_reads_the_same_everywhere(path: Seq<char>)
    requires
        path.len() > 0,
        !parts_path(path.last()),
        path.last() != '.',
        extension_text(driveless(path)) is Some,
    ensures
        extension_text(path) == extension_text(driveless(path)),
{
    let k: int = if has_drive(path) {
        2
    } else {
        0
    };
    let text = driveless(path);
    assert(text =~= slashed(path).skip(k));
    lemma_names_end_alike(path, k);
    let (long, short) = (after_last(path, '/'), after_last(text, '/'));
    lemma_after_last(path, '/');
    lemma_after_last(text, '/');
    if text.len() == 0 {
        assert(file_name(text) is None);
    } else {
        assert(text.last() == path.last());
        assert(seq!['.', '.'].last() == '.' && seq!['.'].last() == '.');
        assert(file_name(text) == Some(short) && file_name(path) == Some(long));
        lemma_ends_follow_alike(long, short, '.');
    }
}

/// The text of an optional string.
pub open spec fn text_in(text: Option<String>) -> Option<Seq<char>> {
    match text {
        Some(text) => Some(text@),
        None => None,
    }
}

/// `std::path::Path::extension`: what follows the last dot of the file's name,
/// and nothing where the path names no file. Systems part a path by slashes
/// alone, or by slashes and backslashes behind a drive; which of the two applies
/// is the machine's, and how a path that begins with two separators is taken
/// apart is left open.
#[verifier::external_body]
fn path_extension(path: &str) -> (extension: Option<String>)
    ensures
        !shared_path(path@) ==> text_in(extension) == extension_text(path@) || text_in(extension)
            == extension_text(driveless(path@)),
{
    match std::path::Path::new(path).extension() {
        Some(extension) => extension.to_str().map(String::from),
        None => None,
    }
}

/// `std::path::Path::file_stem`: the file's name without its extension, and
/// nothing where the path names no file. Systems part a path by slashes alone,
/// or by slashes and backslashes behind a drive; which of the two applies is the
/// machine's, and how a path that begins with two separators is taken apart is
/// left open.
#[verifier::external_body]
fn path_stem(path: &str) -> (stem: Option<String>)
    ensures
        !shared_path(path@) ==> text_in(stem) == stem_text(path@) || text_in(stem) == stem_text(
            driveless(path@),
        ),
{
    match std::path::Path::new(path).file_stem() {
        Some(stem) => stem.to_str().map(String::from),
        None => None,
    }
}

/// `extension` is one that the machine may find for `path`.
pub closed spec fn may_extend(path: &str, extension: Option<String>) -> bool {
    call_ensures(path_extension, (path,), extension)
}

/// `stem` is one that the machine may find for `path`.
pub closed spec fn may_stem(path: &str, stem: Option<String>) -> bool {
    call_ensures(path_stem, (path,), stem)
}

/// `extension` and `stem` are ones that the machine may find for `path`.
pub open spec fn may_name(path: &str, extension: Option<String>, stem: Option<String>) -> bool {
    may_extend(path, extension) && may_stem(path, stem)
}

/// A file whose name has an extension by slashes and backslashes is found to have
/// that one on every machine. The path must end in the file's name, and begin
/// with no two separators.
pub proof fn an_extension_is_found_everywhere(path: &str, extension: Option<String>)
    requires
        !shared_path(path@),
        path@.len() > 0,
        !parts_path(path@.last()),
        path@.last() != '.',
        extension_text(driveless(path@)) is Some,
        may_extend(path, extension),
    ensures
        text_in(extension) == extension_text(driveless(path@)),
{
    an_extension_reads_the_same_everywhere(path@);
}

/// What the machine may find for a path that is no share: what one of the two
/// readings gives, and for a plain path what both give.
pub proof fn names_follow_the_path(path: &str, extension: Option<String>, stem: Option<String>)
    requires
        !shared_path(path@),
    ensures
        may_extend(path, extension) ==> text_in(extension) == extension_text(path@) || text_in(
            extension,
        ) == extension_text(driveless(path@)),
        may_stem(path, stem) ==> text_in(stem) == stem_text(path@) || text_in(stem) == stem_text(
            driveless(path@),
        ),
        plain_path(path@) && may_extend(path, extension) ==> text_in(extension) == extension_text(
            path@,
        ),
        plain_path(path@) && may_stem(path, stem) ==> text_in(stem) == stem_text(path@),
{
    if plain_path(path@) {
        a_plain_path_reads_as_it_stands(path@);
    }
}

/// An extension in lower case, where it is one that can be decoded.
pub open spec fn known(extension: Option<Seq<char>>) -> Option<Seq<char>> {
    match extension {
        Some(extension) => if listed(AUDIO_EXTENSIONS@, lowered(extension)) {
            Some(lowered(extension))
        } else {
            None
        },
        None => None,
    }
}

/// An extension in lower case, when it is one that can be decoded.
pub fn known_extension(extension: Option<String>) -> (found: Option<String>)
    ensures
        text_in(found) == known(text_in(extension)),
{
    match extension {
        Some(extension) => {
            let lower: String = to_lower(extension.as_str());
            if is_listed(AUDIO_EXTENSIONS.as_slice(), lower.as_str()) {
                Some(lower)
            } else {
                None
            }
        },
        None => None,
    }
}

/// The file's extension in lower case, when it is one that can be decoded.
pub fn audio_extension(path: &str) -> (found: Option<String>)
    ensures
        exists|extension: Option<String>| #[trigger]
            may_extend(path, extension) && text_in(found) == known(text_in(extension)),
        !shared_path(path@) ==> text_in(found) == known(extension_text(path@)) || text_in(found)
            == known(extension_text(driveless(path@))),
        plain_path(path@) ==> text_in(found) == known(extension_text(path@)),
        found matches Some(extension) ==> listed(AUDIO_EXTENSIONS@, extension@),
{
    let extension: Option<String> = path_extension(path);
    assert(may_extend(path, extension));
    proof {
        if plain_path(path@) {
            a_plain_path_reads_as_it_stands(path@);
        }
    }
    known_extension(extension)
}

/// Whether a file of this extension is always lossless.
pub fn is_lossless(extension: &str) -> (yes: bool)
    ensures
        yes == listed(LOSSLESS_EXTENSIONS@, extension@),
{
    is_listed(LOSSLESS_EXTENSIONS.as_slice(), extension)
}

/// Recovers a track's position from its file's name, for tags that carry none.
pub fn track_number_from_filename(path: &str) -> (position: FilenamePosition)
    ensures
        exists|stem: Option<String>| #[trigger]
            may_stem(path, stem) && position == position_by_name(text_in(stem), true),
        !shared_path(path@) ==> position == position_by_name(stem_text(path@), true) || position
            == position_by_name(stem_text(driveless(path@)), true),
        plain_path(path@) ==> position == position_by_name(stem_text(path@), true),
{
    let stem: Option<String> = path_stem(path);
    assert(may_stem(path, stem));
    proof {
        if plain_path(path@) {
            a_plain_path_reads_as_it_stands(path@);
        }
    }
    match stem {
        Some(stem) => position_in_stem(stem.as_str()),
        None => FilenamePosition { disc: None, track: None },
    }
}

/// What is always lossless can be decoded.
pub proof fn lossless_is_audio(extension: Seq<char>)
    requires
        listed(LOSSLESS_EXTENSIONS@, extension),
    ensures
        listed(AUDIO_EXTENSIONS@, extension),
{
    assert(LOSSLESS_EXTENSIONS@[0]@ == AUDIO_EXTENSIONS@[1]@);
    assert(LOSSLESS_EXTENSIONS@[1]@ == AUDIO_EXTENSIONS@[2]@);
    assert(LOSSLESS_EXTENSIONS@[2]@ == AUDIO_EXTENSIONS@[7]@);
    assert(LOSSLESS_EXTENSIONS@[3]@ == AUDIO_EXTENSIONS@[8]@);
}

/// Letter case does not matter: a name is taken as audio in any case if it is
/// in one.
pub proof fn case_does_not_matter(a: Seq<char>, b: Seq<char>)
    requires
        lowered(a) == lowered(b),
    ensures
        known(Some(a)) == known(Some(b)),
{
}

/// A name that begins with more than three digits says no position: a year is
/// no track.
pub proof fn a_year_is_no_track(stem: Seq<char>)
    requires
        leading_digits(trimmed(stem)) > 3,
    ensures
        position_of(stem) == no_position(),
{
}

/// A name whose digits run into the title says no position.
pub proof fn digits_in_a_title_are_no_track(stem: Seq<char>)
    requires
        ({
            let name = trimmed(stem);
            let rest = name.skip(leading_digits(name) as int);
            !separated(rest)
        }),
    ensures
        position_of(stem) == no_position(),
{
    let name = trimmed(stem);
    let n = leading_digits(name);
    if n == 1 && paired(name) {
        assert(name.skip(1)[0] == name[1]);
    }
}

/// No position is zero, and no track is past three digits, nor a disc past
/// one.
pub proof fn positions_are_small(stem: Seq<char>)
    ensures
        position_of(stem).track matches Some(track) ==> 1 <= track <= 999,
        position_of(stem).disc matches Some(disc) ==> 1 <= disc <= 9 && paired(trimmed(stem)),
{
    let name = trimmed(stem);
    lemma_short_digits(name);
    lemma_short_digits(name.skip(2));
}

proof fn lemma_short_digits(text: Seq<char>)
    ensures
        leading_digits(text) == 1 ==> digits_value(text, leading_digits(text)) <= 9,
        leading_digits(text) <= 3 ==> digits_value(text, leading_digits(text)) <= 999,
{
    let wanted = |c: char| digit(c);
    let n = leading_digits(text);
    lemma_run_is_wanted(text, wanted);
    assert forall|i: int| 0 <= i < n implies digit(#[trigger] text[i]) by {
        assert(wanted(text[i]));
    }
    reveal_with_fuel(digits_value, 4);
    if n <= 3 {
        assert(n > 0 ==> digit(text[0]));
        assert(n > 1 ==> digit(text[1]));
        assert(n > 2 ==> digit(text[2]));
    }
}

// ── tags and properties ──────────────────────────────────────────────────────

/// The texts that a file's tag holds, under the keys that every container's
/// own keys stand for.
#[derive(Debug)]
pub struct Tag {
    pub title: Option<String>,
    pub artist: Option<String>,
    pub album: Option<String>,
    pub composer: Option<String>,
    pub track_number: Option<String>,
    pub track_total: Option<String>,
    pub disc_number: Option<String>,
    pub disc_total: Option<String>,
    pub year: Option<String>,
    pub recording_date: Option<String>,
    pub genre: Option<String>,
    pub album_artist: Option<String>,
    pub rg_track_gain: Option<String>,
    pub rg_track_peak: Option<String>,
    pub rg_album_gain: Option<String>,
    pub rg_album_peak: Option<String>,
}

/// The tag of a file that has none.
pub open spec fn no_tag() -> Tag {
    Tag {
        title: None,
        artist: None,
        album: None,
        composer: None,
        track_number: None,
        track_total: None,
        disc_number: None,
        disc_total: None,
        year: None,
        recording_date: None,
        genre: None,
        album_artist: None,
        rg_track_gain: None,
        rg_track_peak: None,
        rg_album_gain: None,
        rg_album_peak: None,
    }
}

impl Default for Tag {
    fn default() -> (tag: Self)
        ensures
            tag == no_tag(),
    {
        Tag {
            title: None,
            artist: None,
            album: None,
            composer: None,
            track_number: None,
            track_total: None,
            disc_number: None,
            disc_total: None,
            year: None,
            recording_date: None,
            genre: None,
            album_artist: None,
            rg_track_gain: None,
            rg_track_peak: None,
            rg_album_gain: None,
            rg_album_peak: None,
        }
    }
}

/// What a file's audio stream is like.
#[derive(Debug, Clone, Copy, PartialEq, Eq, Structural)]
pub struct Properties {
    pub duration_nanos: u128,
    pub sample_rate: Option<u32>,
    pub bit_depth: Option<u8>,
    pub channels: Option<u8>,
}

/// Everything that one audio file's tag, properties and name say about it.
/// The loudness texts are as the tag holds them.
#[derive(Debug, Clone)]
pub struct Metadata {
    pub title: String,
    pub artist: Option<String>,
    pub album: Option<String>,
    pub composer: Option<String>,
    pub duration_nanos: u128,
    pub format: String,
    pub sample_rate: Option<u32>,
    pub bit_depth: Option<u8>,
    pub channels: Option<u8>,
    pub lossless: bool,
    pub track_number: Option<u32>,
    pub track_total: Option<u32>,
    pub disc_number: Option<u32>,
    pub disc_total: Option<u32>,
    pub year: Option<u32>,
    pub genre: Option<String>,
    pub album_artist: Option<String>,
    pub rg_track_gain: Option<String>,
    pub rg_track_peak: Option<String>,
    pub rg_album_gain: Option<String>,
    pub rg_album_peak: Option<String>,
}

/// A text that is more than white space, as it stands.
pub open spec fn filled(text: Option<String>) -> Option<Seq<char>> {
    match text {
        Some(text) => if trimmed(text@).len() > 0 {
            Some(text@)
        } else {
            None
        },
        None => None,
    }
}

fn non_empty(text: Option<String>) -> (kept: Option<String>)
    ensures
        text_in(kept) == filled(text),
{
    match text {
        Some(text) => {
            let chars: Vec<char> = chars_of(text.as_str());
            let (from, to) = trim_bounds(chars.as_slice());
            if from < to {
                Some(text)
            } else {
                None
            }
        },
        None => None,
    }
}

/// `text` up to its first slash.
pub open spec fn before_slash(text: Seq<char>) -> Seq<char> {
    text.take(run(text, |c: char| c != '/') as int)
}

/// The number in a tag's text: what stands before a slash, as in `3/12`,
/// without the white space around it.
pub open spec fn tagged_number(text: Option<String>) -> Option<u32> {
    match text {
        Some(text) => number_in(trimmed(before_slash(text@))),
        None => None,
    }
}

fn read_number(text: &Option<String>) -> (number: Option<u32>)
    ensures
        number == tagged_number(*text),
{
    match text {
        Some(text) => {
            let chars: Vec<char> = chars_of(text.as_str());
            let mut n: usize = 0;
            while n < chars.len() && chars[n] != '/'
                invariant
                    n <= chars@.len(),
                    forall|i: int| 0 <= i < n ==> chars@[i] != '/',
                decreases chars@.len() - n,
            {
                n += 1;
            }
            proof {
                lemma_run(chars@, |c: char| c != '/', n as nat);
            }
            let part: &[char] = vstd::slice::slice_subrange(chars.as_slice(), 0, n);
            assert(part@ =~= before_slash(text@));
            let (from, to) = trim_bounds(part);
            parse_number(vstd::slice::slice_subrange(part, from, to))
        },
        None => None,
    }
}

/// The year in a date: its first four characters, where they are a number.
pub open spec fn dated(date: Option<Seq<char>>) -> Option<u32> {
    match date {
        Some(date) => if date.len() >= 4 {
            number_in(date.take(4))
        } else {
            None
        },
        None => None,
    }
}

fn read_year(date: &Option<String>) -> (year: Option<u32>)
    ensures
        year == dated(text_in(*date)),
{
    match date {
        Some(date) => {
            let chars: Vec<char> = chars_of(date.as_str());
            if chars.len() < 4 {
                return None;
            }
            let lead: &[char] = vstd::slice::slice_subrange(chars.as_slice(), 0, 4);
            assert(lead@ =~= date@.take(4));
            parse_number(lead)
        },
        None => None,
    }
}

/// The first number that there is.
pub open spec fn either(first: Option<u32>, second: Option<u32>) -> Option<u32> {
    match first {
        Some(number) => Some(number),
        None => second,
    }
}

fn first_of(first: Option<u32>, second: Option<u32>) -> (number: Option<u32>)
    ensures
        number == either(first, second),
{
    match first {
        Some(number) => Some(number),
        None => second,
    }
}

/// The title of a file: its tag's, else its name without the extension, else
/// `Unknown`.
pub open spec fn titled(title: Option<String>, stem: Option<Seq<char>>) -> Seq<char> {
    match (filled(title), stem) {
        (Some(title), _) => title,
        (None, Some(stem)) => stem,
        (None, None) => "Unknown"@,
    }
}

/// Whether `m` is what a file's extension, name, tag and properties say.
pub open spec fn describes(
    m: Metadata,
    extension: Seq<char>,
    stem: Option<Seq<char>>,
    position: FilenamePosition,
    tag: Tag,
    properties: Properties,
) -> bool {
    &&& m.title@ == titled(tag.title, stem)
    &&& text_in(m.artist) == filled(tag.artist)
    &&& text_in(m.album) == filled(tag.album)
    &&& text_in(m.composer) == filled(tag.composer)
    &&& m.duration_nanos == properties.duration_nanos
    &&& m.format@ == raised(extension)
    &&& m.sample_rate == properties.sample_rate
    &&& m.bit_depth == properties.bit_depth
    &&& m.channels == properties.channels
    &&& m.lossless == listed(LOSSLESS_EXTENSIONS@, extension)
    &&& m.track_number == either(tagged_number(tag.track_number), position.track)
    &&& m.track_total == tagged_number(tag.track_total)
    &&& m.disc_number == either(tagged_number(tag.disc_number), position.disc)
    &&& m.disc_total == tagged_number(tag.disc_total)
    &&& m.year == either(tagged_number(tag.year), dated(filled(tag.recording_date)))
    &&& text_in(m.genre) == filled(tag.genre)
    &&& text_in(m.album_artist) == filled(tag.album_artist)
    &&& m.rg_track_gain == tag.rg_track_gain
    &&& m.rg_track_peak == tag.rg_track_peak
    &&& m.rg_album_gain == tag.rg_album_gain
    &&& m.rg_album_peak == tag.rg_album_peak
}

/// A tag, or an empty one in its place.
pub open spec fn tag_or_none(tag: Option<Tag>) -> Tag {
    match tag {
        Some(tag) => tag,
        None => no_tag(),
    }
}

/// The tag that a file is read by: the primary one, else the first, else none.
pub open spec fn tag_of(opened: Opened) -> Option<Tag> {
    match opened.primary {
        Some(tag) => Some(tag),
        None => opened.first,
    }
}

/// Puts together what is known of a file. A file without a tag takes its
/// title from its name, and a missing position is recovered from it too.
pub fn metadata_of(
    extension: &str,
    stem: Option<String>,
    position: FilenamePosition,
    tag: Option<Tag>,
    properties: Properties,
) -> (m: Metadata)
    ensures
        describes(m, extension@, text_in(stem), position, tag_or_none(tag), properties),
{
    let tag: Tag = match tag {
        Some(tag) => tag,
        None => Tag::default(),
    };
    let track_number: Option<u32> = first_of(read_number(&tag.track_number), position.track);
    let disc_number: Option<u32> = first_of(read_number(&tag.disc_number), position.disc);
    let year: Option<u32> = read_number(&tag.year);
    let track_total: Option<u32> = read_number(&tag.track_total);
    let disc_total: Option<u32> = read_number(&tag.disc_total);
    let date: Option<String> = non_empty(tag.recording_date);
    let title: String = match non_empty(tag.title) {
        Some(title) => title,
        None => match stem {
            Some(stem) => stem,
            None => "Unknown".to_owned(),
        },
    };
    Metadata {
        title,
        artist: non_empty(tag.artist),
        album: non_empty(tag.album),
        composer: non_empty(tag.composer),
        duration_nanos: properties.duration_nanos,
        format: to_upper(extension),
        sample_rate: properties.sample_rate,
        bit_depth: properties.bit_depth,
        channels: properties.channels,
        lossless: is_lossless(extension),
        track_number,
        track_total,
        disc_number,
        disc_total,
        year: first_of(year, read_year(&date)),
        genre: non_empty(tag.genre),
        album_artist: non_empty(tag.album_artist),
        rg_track_gain: tag.rg_track_gain,
        rg_track_peak: tag.rg_track_peak,
        rg_album_gain: tag.rg_album_gain,
        rg_album_peak: tag.rg_album_peak,
    }
}

/// What opening a file and reading its tags gave.
#[derive(Debug)]
pub struct Opened {
    /// The tag of the kind that files of this format usually have.
    pub primary: Option<Tag>,
    /// The first tag of any kind.
    pub first: Option<Tag>,
    pub properties: Properties,
}

/// What a file whose name has this stem is at, by its name alone. A name that
/// was not valid text gives no position.
pub open spec fn position_by_name(stem: Option<Seq<char>>, legible: bool) -> FilenamePosition {
    match stem {
        Some(stem) if legible => position_of(stem),
        _ => no_position(),
    }
}

/// What is read of a file whose name has this extension and stem.
pub open spec fn reads(
    extension: Option<Seq<char>>,
    stem: Option<Seq<char>>,
    legible: bool,
    opened: Result<Opened, String>,
    read: Result<Metadata, String>,
) -> bool {
    match (known(extension), opened) {
        (None, _) => read matches Err(message) && message@ == "not an audio file"@,
        (Some(_), Err(failure)) => read == Err::<Metadata, String>(failure),
        (Some(extension), Ok(opened)) => read matches Ok(m) && describes(
            m,
            extension,
            stem,
            position_by_name(stem, legible),
            tag_or_none(tag_of(opened)),
            opened.properties,
        ),
    }
}

/// Reads everything that one file's tags, properties and name say. `opened`
/// is what came of opening it. `legible` says whether its name was valid
/// text; where it was not, `path` holds what could be read of it, which makes
/// a title and no position.
pub fn read_metadata(path: &str, legible: bool, opened: Result<Opened, String>) -> (read: Result<
    Metadata,
    String,
>)
    ensures
        exists|extension: Option<String>, stem: Option<String>| #[trigger]
            may_name(path, extension, stem) && reads(
                text_in(extension),
                text_in(stem),
                legible,
                opened,
                read,
            ),
        plain_path(path@) ==> reads(
            extension_text(path@),
            stem_text(path@),
            legible,
            opened,
            read,
        ),
{
    let extension: Option<String> = path_extension(path);
    let stem: Option<String> = path_stem(path);
    let ghost (named, stemmed) = (text_in(extension), text_in(stem));
    assert(may_name(path, extension, stem));
    proof {
        if plain_path(path@) {
            a_plain_path_reads_as_it_stands(path@);
        }
    }
    let read = match known_extension(extension) {
        None => Err("not an audio file".to_owned()),
        Some(extension) => match opened {
            Err(failure) => Err(failure),
            Ok(opened) => {
                let position: FilenamePosition = match &stem {
                    Some(stem) if legible => position_in_stem(stem.as_str()),
                    _ => FilenamePosition { disc: None, track: None },
                };
                let tag: Option<Tag> = match opened.primary {
                    Some(tag) => Some(tag),
                    None => opened.first,
                };
                Ok(metadata_of(extension.as_str(), stem, position, tag, opened.properties))
            },
        },
    };
    assert(reads(named, stemmed, legible, opened, read));
    read
}

/// Of any file: a failed opening is an error, and the only other is that the
/// name is not one of an audio file; else the text fields and the totals are
/// the tag's, whatever the name.
pub proof fn the_name_gives_no_text(
    extension: Option<Seq<char>>,
    stem: Option<Seq<char>>,
    legible: bool,
    opened: Result<Opened, String>,
    read: Result<Metadata, String>,
)
    requires
        reads(extension, stem, legible, opened, read),
    ensures
        opened is Err ==> read is Err,
        read matches Err(message) ==> {
            ||| message@ == "not an audio file"@
            ||| opened == Err::<Opened, String>(message)
        },
        read matches Ok(m) ==> {
            let tag = tag_or_none(tag_of(opened->Ok_0));
            &&& filled(tag.title) matches Some(title) ==> m.title@ == title
            &&& text_in(m.artist) == filled(tag.artist)
            &&& text_in(m.album) == filled(tag.album)
            &&& text_in(m.composer) == filled(tag.composer)
            &&& text_in(m.genre) == filled(tag.genre)
            &&& text_in(m.album_artist) == filled(tag.album_artist)
            &&& m.track_total == tagged_number(tag.track_total)
            &&& m.disc_total == tagged_number(tag.disc_total)
        },
{
}

/// A file with no number in its tag takes its position from its name.
pub proof fn an_untagged_file_is_named_by_its_file(
    m: Metadata,
    extension: Seq<char>,
    stem: Seq<char>,
    position: FilenamePosition,
    properties: Properties,
)
    requires
        describes(m, extension, Some(stem), position, no_tag(), properties),
    ensures
        m.title@ == stem,
        m.track_number == position.track,
        m.disc_number == position.disc,
        m.year is None,
        m.artist is None && m.album is None && m.composer is None,
        m.genre is None && m.album_artist is None,
{
}

/// A number that the tag holds wins over the name's, each for itself; one that
/// it lacks is the name's.
pub proof fn the_tag_wins_over_the_name(
    m: Metadata,
    extension: Seq<char>,
    stem: Option<Seq<char>>,
    position: FilenamePosition,
    tag: Tag,
    properties: Properties,
)
    requires
        describes(m, extension, stem, position, tag, properties),
    ensures
        tagged_number(tag.track_number) matches Some(n) ==> m.track_number == Some(n),
        tagged_number(tag.disc_number) matches Some(n) ==> m.disc_number == Some(n),
        tagged_number(tag.track_number) is None ==> m.track_number == position.track,
        tagged_number(tag.disc_number) is None ==> m.disc_number == position.disc,
{
}

// ── cover art ────────────────────────────────────────────────────────────────

/// A picture embedded in a file.
#[derive(Debug)]
pub struct Picture {
    /// Whether it is marked as the front cover.
    pub front: bool,
    pub mime: Option<String>,
    pub data: Vec<u8>,
}

/// Cover art as base64 text, ready for a `data:` address.
#[derive(Debug, Clone)]
pub struct CoverArt {
    pub mime: String,
    pub data_base64: String,
}

/// The base64 character of a number below sixty-four.
pub open spec fn sextet(n: int) -> char {
    if n < 26 {
        ('A' as u32 + n) as char
    } else if n < 52 {
        ('a' as u32 + n - 26) as char
    } else if n < 62 {
        ('0' as u32 + n - 52) as char
    } else if n == 62 {
        '+'
    } else {
        '/'
    }
}

/// Byte `i`, or zero past the end.
pub open spec fn byte_or_zero(data: Seq<u8>, i: int) -> int {
    if i < data.len() {
        data[i] as int
    } else {
        0
    }
}

/// Bytes in base64, in the standard alphabet and padded: three bytes are four
/// characters of six bits each, and `=` stands where the last three are short.
pub open spec fn base64_text(data: Seq<u8>) -> Seq<char>
    decreases data.len(),
{
    if data.len() == 0 {
        Seq::empty()
    } else {
        let a = data[0] as int;
        let b = byte_or_zero(data, 1);
        let c = byte_or_zero(data, 2);
        let group = seq![
            sextet(a / 4),
            sextet(a % 4 * 16 + b / 16),
            if data.len() > 1 {
                sextet(b % 16 * 4 + c / 64)
            } else {
                '='
            },
            if data.len() > 2 {
                sextet(c % 64)
            } else {
                '='
            },
        ];
        if data.len() > 3 {
            group + base64_text(data.skip(3))
        } else {
            group
        }
    }
}

/// `base64::Engine::encode` of `base64::engine::general_purpose::STANDARD`:
/// the bytes in base64, in the standard alphabet and padded. It gives up on
/// lengths near the end of the address space, which the bound leaves out.
#[verifier::external_body]
fn encode_base64(data: &[u8]) -> (text: String)
    requires
        data@.len() <= MAX_EMBEDDED_COVER_BYTES,
    ensures
        text@ == base64_text(data@),
{
    base64::engine::general_purpose::STANDARD.encode(data)
}

/// Which of the pictures is the cover: the first front cover, else the first
/// picture.
pub open spec fn cover_index(pictures: Seq<Picture>) -> int {
    if exists|i: int| 0 <= i < pictures.len() && #[trigger] pictures[i].front {
        choose|i: int|
            0 <= i < pictures.len() && (#[trigger] pictures[i]).front && (forall|j: int|
                0 <= j < i ==> !(#[trigger] pictures[j]).front)
    } else {
        0
    }
}

/// Whether `cover` is what is shown of `picture`: nothing where it is too
/// large, and a JPEG where its kind is not said.
pub open spec fn shows(cover: Option<CoverArt>, picture: Picture) -> bool {
    if picture.data@.len() > MAX_EMBEDDED_COVER_BYTES {
        cover is None
    } else {
        cover matches Some(art) && art.data_base64@ == base64_text(picture.data@) && art.mime@
            == match picture.mime {
            Some(mime) => mime@,
            None => "image/jpeg"@,
        }
    }
}

/// The first embedded picture of a file, the front cover before the others.
/// `pictures` are those of all the file's tags, in order.
pub fn read_cover(pictures: Vec<Picture>) -> (cover: Option<CoverArt>)
    ensures
        pictures@.len() == 0 ==> cover is None,
        pictures@.len() > 0 ==> shows(cover, pictures@[cover_index(pictures@)]),
{
    if pictures.len() == 0 {
        return None;
    }
    let mut chosen: usize = 0;
    while chosen < pictures.len() && !pictures[chosen].front
        invariant
            chosen <= pictures@.len(),
            forall|j: int| 0 <= j < chosen ==> !(#[trigger] pictures@[j]).front,
        decreases pictures@.len() - chosen,
    {
        chosen += 1;
    }
    if chosen == pictures.len() {
        chosen = 0;
    }
    assert(chosen == cover_index(pictures@)) by {
        if pictures@[chosen as int].front {
            let i = cover_index(pictures@);
            assert(0 <= i < pictures@.len() && pictures@[i].front);
            assert(i < chosen ==> !pictures@[i].front);
        }
    }
    let picture: &Picture = &pictures[chosen];
    if picture.data.len() > MAX_EMBEDDED_COVER_BYTES {
        return None;
    }
    let mime: String = match &picture.mime {
        Some(mime) => mime.clone(),
        None => "image/jpeg".to_owned(),
    };
    Some(CoverArt { mime, data_base64: encode_base64(picture.data.as_slice()) })
}

/// A front cover is taken wherever it stands; without one, the first picture
/// is.
pub proof fn the_front_cover_comes_first(pictures: Seq<Picture>, i: int)
    requires
        0 <= i < pictures.len(),
    ensures
        0 <= cover_index(pictures) < pictures.len(),
        pictures[i].front ==> pictures[cover_index(pictures)].front && cover_index(pictures) <= i,
        (forall|j: int| 0 <= j < pictures.len() ==> !(#[trigger] pictures[j]).front)
            ==> cover_index(pictures) == 0,
{
    if pictures[i].front {
        lemma_first_front(pictures, i);
    } else if exists|j: int| 0 <= j < pictures.len() && #[trigger] pictures[j].front {
        let j = choose|j: int| 0 <= j < pictures.len() && #[trigger] pictures[j].front;
        lemma_first_front(pictures, j);
    }
}

proof fn lemma_first_front(pictures: Seq<Picture>, i: int)
    requires
        0 <= i < pictures.len(),
        pictures[i].front,
    ensures
        exists|k: int|
            0 <= k < pictures.len() && (#[trigger] pictures[k]).front && (forall|j: int|
                0 <= j < k ==> !(#[trigger] pictures[j]).front),
    decreases i,
{
    if exists|j: int| 0 <= j < i && #[trigger] pictures[j].front {
        let j = choose|j: int| 0 <= j < i && #[trigger] pictures[j].front;
        lemma_first_front(pictures, j);
    }
}

/// The base64 text of a picture is four characters to three bytes, rounded
/// up.
pub proof fn base64_is_a_third_longer(data: Seq<u8>)
    ensures
        base64_text(data).len() == (data.len() + 2) / 3 * 4,
    decreases data.len(),
{
    if data.len() > 3 {
        base64_is_a_third_longer(data.skip(3));
    }
}

/// Nothing is lost: different bytes have different base64 texts.
pub proof fn base64_loses_nothing(a: Seq<u8>, b: Seq<u8>)
    requires
        base64_text(a) == base64_text(b),
    ensures
        a == b,
    decreases a.len(),
{
    base64_is_a_third_longer(a);
    base64_is_a_third_longer(b);
    let (s, t) = (base64_text(a), base64_text(b));
    if a.len() == 0 {
        assert(a =~= b);
    } else {
        assert(s[0] == t[0] && s[1] == t[1] && s[2] == t[2] && s[3] == t[3]);
        let (a1, b1) = (byte_or_zero(a, 1), byte_or_zero(b, 1));
        let (a2, b2) = (byte_or_zero(a, 2), byte_or_zero(b, 2));
        lemma_sextet(a[0] as int / 4, b[0] as int / 4);
        lemma_sextet(a[0] as int % 4 * 16 + a1 / 16, b[0] as int % 4 * 16 + b1 / 16);
        lemma_sextet(a1 % 16 * 4 + a2 / 64, b1 % 16 * 4 + b2 / 64);
        lemma_sextet(a2 % 64, b2 % 64);
        assert(a.len() > 1 <==> b.len() > 1);
        assert(a.len() > 2 <==> b.len() > 2);
        assert(a[0] == b[0]);
        assert(a1 == b1);
        assert(a2 == b2);
        if a.len() > 3 {
            assert(s.skip(4) =~= base64_text(a.skip(3)));
            assert(t.skip(4) =~= base64_text(b.skip(3)));
            base64_loses_nothing(a.skip(3), b.skip(3));
            assert forall|i: int| 0 <= i < a.len() implies a[i] == b[i] by {
                if i >= 3 {
                    assert(a.skip(3)[i - 3] == b.skip(3)[i - 3]);
                }
            }
        }
        assert(a =~= b);
    }
}

proof fn lemma_sextet(m: int, n: int)
    requires
        0 <= m < 64,
        0 <= n < 64,
    ensures
        sextet(m) == sextet(n) ==> m == n,
        sextet(m) != '=',
        sextet(n) != '=',
{
}

} // verus!
