//! Names and tags: what a number, a file's name and a tag are read as.
use vstd::prelude::*;

use crate::metadata::{after_last, before_slash, dated, describes, digit, digits_value};
use crate::metadata::{extension_text, file_name, filled, known, leading_digits, lemma_run, listed};
use crate::metadata::{lowered, number_in};
use crate::metadata::{position_of, stem_text, tagged_number, text_in, trimmed, white};
use crate::metadata::{without_lead, without_tail};
use crate::metadata::{base64_text, reads, shows, CoverArt, Opened, Picture};
use crate::metadata::{AUDIO_EXTENSIONS, LOSSLESS_EXTENSIONS};
use crate::metadata::{FilenamePosition, Metadata, Properties, Tag};

verus! {

/// The number that a digit says.
pub open spec fn said_by(c: char) -> int {
    c as u32 - 48
}

/// Whether all of `text` is digits.
pub open spec fn only_digits(text: Seq<char>) -> bool {
    forall|i: int| 0 <= i < text.len() ==> '0' <= #[trigger] text[i] && text[i] <= '9'
}

/// A number in decimal.
pub open spec fn decimal(n: nat) -> Seq<char>
    decreases n,
{
    if n < 10 {
        seq![(48 + n) as char]
    } else {
        decimal(n / 10).push((48 + n % 10) as char)
    }
}

proof fn lemma_decimal(n: nat)
    ensures
        decimal(n).len() > 0,
        only_digits(decimal(n)),
        digits_value(decimal(n), decimal(n).len()) == n,
    decreases n,
{
    if n >= 10 {
        lemma_decimal(n / 10);
        let (less, all) = (decimal(n / 10), decimal(n));
        assert forall|i: int| 0 <= i < all.len() implies '0' <= #[trigger] all[i] && all[i]
            <= '9' by {
            if i < less.len() {
                assert(all[i] == less[i]);
            }
        }
        lemma_digits_of_a_beginning(all, less, less.len());
    } else {
        reveal_with_fuel(digits_value, 2);
    }
}

proof fn lemma_digits_of_a_beginning(a: Seq<char>, b: Seq<char>, n: nat)
    requires
        n <= a.len(),
        n <= b.len(),
        forall|i: int| 0 <= i < n ==> #[trigger] a[i] == b[i],
    ensures
        digits_value(a, n) == digits_value(b, n),
    decreases n,
{
    if n > 0 {
        lemma_digits_of_a_beginning(a, b, (n - 1) as nat);
        assert(a[n - 1] == b[n - 1]);
    }
}

/// A number written in decimal is read as that number, with or without a plus
/// sign before it, and not at all where it is too large for thirty-two bits.
pub proof fn a_number_is_read_as_it_is_written(n: nat)
    ensures
        number_in(decimal(n)) == if n <= 0xffff_ffff {
            Some(n as u32)
        } else {
            None
        },
        number_in(seq!['+'] + decimal(n)) == number_in(decimal(n)),
{
    lemma_decimal(n);
    let text = decimal(n);
    assert(text[0] != '+');
    assert forall|i: int| 0 <= i < text.len() implies digit(#[trigger] text[i]) by {
        assert('0' <= text[i] && text[i] <= '9');
    }
    let signed = seq!['+'] + text;
    assert(signed[0] == '+');
    assert(signed.skip(1) =~= text);
}

/// Text between white space is what is left of it all.
pub proof fn white_space_around_a_text_is_dropped(lead: Seq<char>, text: Seq<char>, tail: Seq<char>)
    requires
        forall|i: int| 0 <= i < lead.len() ==> white(#[trigger] lead[i]),
        forall|i: int| 0 <= i < tail.len() ==> white(#[trigger] tail[i]),
        text.len() > 0,
        !white(text[0]),
        !white(text.last()),
    ensures
        trimmed(lead + text + tail) == text,
{
    lemma_lead(lead, text + tail);
    assert(lead + text + tail =~= lead + (text + tail));
    lemma_tail(text, tail);
}

proof fn lemma_lead(lead: Seq<char>, text: Seq<char>)
    requires
        forall|i: int| 0 <= i < lead.len() ==> white(#[trigger] lead[i]),
        text.len() > 0,
        !white(text[0]),
    ensures
        without_lead(lead + text) == text,
    decreases lead.len(),
{
    if lead.len() > 0 {
        let rest = lead.skip(1);
        assert(white(lead[0]));
        assert((lead + text).skip(1) =~= rest + text);
        lemma_lead(rest, text);
    } else {
        assert(lead + text =~= text);
    }
}

proof fn lemma_tail(text: Seq<char>, tail: Seq<char>)
    requires
        forall|i: int| 0 <= i < tail.len() ==> white(#[trigger] tail[i]),
        text.len() > 0,
        !white(text.last()),
    ensures
        without_tail(text + tail) == text,
    decreases tail.len(),
{
    if tail.len() > 0 {
        let rest = tail.drop_last();
        assert(white(tail[tail.len() - 1]));
        assert((text + tail).drop_last() =~= text + rest);
        lemma_tail(text, rest);
    } else {
        assert(text + tail =~= text);
    }
}

proof fn lemma_no_space(text: Seq<char>)
    requires
        text.len() > 0,
        !white(text[0]),
        !white(text.last()),
    ensures
        trimmed(text) == text,
{
    let none = Seq::<char>::empty();
    white_space_around_a_text_is_dropped(none, text, none);
    assert(none + text + none =~= text);
}

/// The number of a tag is what it begins with, up to a slash where it has one.
pub proof fn a_tagged_number_ends_at_a_slash(text: String, n: nat, total: Seq<char>)
    requires
        n <= 0xffff_ffff,
        text@ == decimal(n) || text@ == decimal(n) + seq!['/'] + total,
    ensures
        tagged_number(Some(text)) == Some(n as u32),
{
    lemma_decimal(n);
    let (d, t) = (decimal(n), text@);
    let wanted = |c: char| c != '/';
    assert forall|i: int| 0 <= i < d.len() implies wanted(#[trigger] t[i]) by {
        assert(t[i] == d[i]);
        assert('0' <= d[i] && d[i] <= '9');
    }
    lemma_run(t, wanted, d.len());
    assert(before_slash(t) =~= d);
    assert('0' <= d[0] && d[0] <= '9');
    assert('0' <= d[d.len() - 1] && d[d.len() - 1] <= '9');
    lemma_no_space(d);
    a_number_is_read_as_it_is_written(n);
}

/// A date that begins with four digits has them as its year.
pub proof fn a_date_begins_with_its_year(date: Seq<char>)
    requires
        date.len() >= 4,
        only_digits(date.take(4)),
    ensures
        dated(Some(date)) == Some(
            (1000 * said_by(date[0]) + 100 * said_by(date[1]) + 10 * said_by(date[2]) + said_by(
                date[3],
            )) as u32,
        ),
{
    let year = date.take(4);
    assert('0' <= year[0] && year[0] <= '9');
    assert('0' <= year[1] && year[1] <= '9');
    assert('0' <= year[2] && year[2] <= '9');
    assert('0' <= year[3] && year[3] <= '9');
    assert forall|i: int| 0 <= i < 4 implies digit(#[trigger] year[i]) by {
        assert('0' <= year[i] && year[i] <= '9');
    }
    reveal_with_fuel(digits_value, 5);
}

/// The number that up to three digits say.
pub open spec fn small_number(text: Seq<char>) -> int {
    if text.len() == 1 {
        said_by(text[0])
    } else if text.len() == 2 {
        10 * said_by(text[0]) + said_by(text[1])
    } else {
        100 * said_by(text[0]) + 10 * said_by(text[1]) + said_by(text[2])
    }
}

/// Whether `rest` parts the digits before it from a title.
pub open spec fn parts_a_title(rest: Seq<char>) -> bool {
    rest.len() == 0 || ((rest[0] == ' ' || rest[0] == '-' || rest[0] == '.' || rest[0] == '_')
        && !white(rest.last()))
}

/// A number as a position: zero is none.
pub open spec fn counted(n: int) -> Option<u32> {
    if n > 0 {
        Some(n as u32)
    } else {
        None
    }
}

proof fn lemma_small_number(text: Seq<char>, name: Seq<char>)
    requires
        1 <= text.len() <= 3,
        only_digits(text),
        text.len() <= name.len(),
        forall|i: int| 0 <= i < text.len() ==> #[trigger] name[i] == text[i],
        name.len() > text.len() ==> !digit(name[text.len() as int]),
    ensures
        leading_digits(name) == text.len(),
        digits_value(name, text.len()) == small_number(text),
        0 <= small_number(text) <= 999,
{
    let wanted = |c: char| digit(c);
    assert forall|i: int| 0 <= i < text.len() implies wanted(#[trigger] name[i]) by {
        assert('0' <= text[i] && text[i] <= '9');
    }
    lemma_run(name, wanted, text.len());
    assert(name[0] == text[0]);
    assert('0' <= text[0] && text[0] <= '9');
    if text.len() > 1 {
        assert(name[1] == text[1]);
        assert('0' <= text[1] && text[1] <= '9');
    }
    if text.len() > 2 {
        assert(name[2] == text[2]);
        assert('0' <= text[2] && text[2] <= '9');
    }
    reveal_with_fuel(digits_value, 4);
}

/// A name that begins with up to three digits, parted from its title, has them as
/// its track. One digit and a dash or an underscore before more digits is
/// something else.
pub proof fn a_name_begins_with_its_track(number: Seq<char>, rest: Seq<char>)
    requires
        1 <= number.len() <= 3,
        only_digits(number),
        parts_a_title(rest),
        number.len() == 1 && rest.len() > 1 && (rest[0] == '-' || rest[0] == '_') ==> !digit(
            rest[1],
        ),
    ensures
        position_of(number + rest) == (FilenamePosition {
            disc: None,
            track: counted(small_number(number)),
        }),
{
    let name = number + rest;
    assert('0' <= number[0] && number[0] <= '9');
    assert(name[0] == number[0]);
    assert('0' <= number[number.len() - 1] && number[number.len() - 1] <= '9');
    assert(name.last() == if rest.len() > 0 {
        rest.last()
    } else {
        number.last()
    });
    lemma_no_space(name);
    if rest.len() > 0 {
        assert(name[number.len() as int] == rest[0]);
    }
    lemma_small_number(number, name);
    assert(name.skip(number.len() as int) =~= rest);
    if number.len() == 1 && rest.len() > 0 && (rest[0] == '-' || rest[0] == '_') {
        let after = name.skip(2);
        let wanted = |c: char| digit(c);
        if rest.len() > 1 {
            assert(after[0] == rest[1]);
        }
        lemma_run(after, wanted, 0);
    }
}

/// A name that begins with one digit, a dash or an underscore, and up to three
/// more digits that are parted from its title, has its disc before its track.
pub proof fn a_name_may_begin_with_its_disc(
    disc: char,
    mark: char,
    number: Seq<char>,
    rest: Seq<char>,
)
    requires
        '0' <= disc,
        disc <= '9',
        mark == '-' || mark == '_',
        1 <= number.len() <= 3,
        only_digits(number),
        parts_a_title(rest),
    ensures
        position_of(seq![disc, mark] + number + rest) == (FilenamePosition {
            disc: counted(said_by(disc)),
            track: counted(small_number(number)),
        }),
{
    let name = seq![disc, mark] + number + rest;
    assert('0' <= number[number.len() - 1] && number[number.len() - 1] <= '9');
    assert(name[0] == disc && name[1] == mark);
    assert(name.last() == if rest.len() > 0 {
        rest.last()
    } else {
        number.last()
    });
    lemma_no_space(name);
    lemma_small_number(seq![disc], name);
    let after = name.skip(2);
    assert(after =~= number + rest);
    lemma_small_number(number, after);
    assert(after.skip(number.len() as int) =~= rest);
}

proof fn lemma_behind_a_mark(text: Seq<char>, mark: char, last: Seq<char>)
    requires
        forall|i: int| 0 <= i < last.len() ==> #[trigger] last[i] != mark,
    ensures
        after_last(text.push(mark) + last, mark) == last,
        text.len() == 0 ==> after_last(last, mark) == last,
    decreases last.len(),
{
    let all = text.push(mark) + last;
    if last.len() > 0 {
        let fewer = last.drop_last();
        assert(all.drop_last() =~= text.push(mark) + fewer);
        assert(all.last() == last[last.len() - 1]);
        lemma_behind_a_mark(text, mark, fewer);
        assert(fewer.push(last.last()) =~= last);
    } else {
        assert(all =~= text.push(mark));
        assert(after_last(all, mark) =~= last);
        assert(after_last(last, mark) =~= last);
    }
}

/// A file's name is what follows the last slash of its path. What follows the last
/// dot of that is its extension, and what stands before that dot its stem.
pub proof fn a_file_is_named_at_the_end_of_its_path(
    folder: Seq<char>,
    stem: Seq<char>,
    extension: Seq<char>,
)
    requires
        stem.len() > 0,
        extension.len() > 0,
        forall|i: int| 0 <= i < stem.len() ==> #[trigger] stem[i] != '/',
        forall|i: int|
            0 <= i < extension.len() ==> #[trigger] extension[i] != '/' && extension[i] != '.',
    ensures
        ({
            let path = folder.push('/') + (stem.push('.') + extension);
            &&& file_name(path) == Some(stem.push('.') + extension)
            &&& extension_text(path) == Some(extension)
            &&& stem_text(path) == Some(stem)
        }),
{
    let name = stem.push('.') + extension;
    let path = folder.push('/') + name;
    assert forall|i: int| 0 <= i < name.len() implies #[trigger] name[i] != '/' by {
        if i < stem.len() {
            assert(name[i] == stem[i]);
        } else if i > stem.len() {
            assert(name[i] == extension[i - stem.len() - 1]);
        }
    }
    lemma_behind_a_mark(folder, '/', name);
    lemma_behind_a_mark(stem, '.', extension);
    assert(name.len() >= 3);
    assert(name.take(name.len() - extension.len() - 1) =~= stem);
}

/// Whether a text is more than white space.
pub open spec fn says_something(text: Seq<char>) -> bool {
    exists|i: int| 0 <= i < text.len() && !white(#[trigger] text[i])
}

proof fn lemma_says_something(text: Seq<char>, i: int)
    requires
        0 <= i < text.len(),
        !white(text[i]),
    ensures
        trimmed(text).len() > 0,
    decreases text.len(),
{
    if white(text[0]) {
        lemma_says_something(text.skip(1), i - 1);
        assert(without_lead(text) == without_lead(text.skip(1)));
    } else {
        lemma_tail_stays(text);
    }
}

proof fn lemma_tail_stays(text: Seq<char>)
    requires
        text.len() > 0,
        !white(text[0]),
    ensures
        without_tail(text).len() > 0,
    decreases text.len(),
{
    if white(text.last()) {
        assert(text.drop_last()[0] == text[0]);
        lemma_tail_stays(text.drop_last());
    }
}

/// Every text of a description is that of the tag of the same name, where it says
/// something.
pub proof fn each_text_is_its_own_tag(
    m: Metadata,
    extension: Seq<char>,
    stem: Option<Seq<char>>,
    position: FilenamePosition,
    tag: Tag,
    properties: Properties,
)
    requires
        describes(m, extension, stem, position, tag, properties),
    ensures
        tag.title matches Some(t) ==> (says_something(t@) ==> m.title@ == t@),
        tag.title is None ==> m.title@ == match stem {
            Some(stem) => stem,
            None => "Unknown"@,
        },
        tag.artist matches Some(t) ==> (says_something(t@) ==> text_in(m.artist) == Some(t@)),
        tag.artist is None ==> m.artist is None,
        tag.album matches Some(t) ==> (says_something(t@) ==> text_in(m.album) == Some(t@)),
        tag.album is None ==> m.album is None,
        tag.composer matches Some(t) ==> (says_something(t@) ==> text_in(m.composer) == Some(t@)),
        tag.composer is None ==> m.composer is None,
        tag.genre matches Some(t) ==> (says_something(t@) ==> text_in(m.genre) == Some(t@)),
        tag.genre is None ==> m.genre is None,
        tag.album_artist matches Some(t) ==> (says_something(t@) ==> text_in(m.album_artist) == Some(
            t@,
        )),
        tag.album_artist is None ==> m.album_artist is None,
        m.rg_track_gain == tag.rg_track_gain,
        m.rg_track_peak == tag.rg_track_peak,
        m.rg_album_gain == tag.rg_album_gain,
        m.rg_album_peak == tag.rg_album_peak,
{
    lemma_filled(tag.title);
    lemma_filled(tag.artist);
    lemma_filled(tag.album);
    lemma_filled(tag.composer);
    lemma_filled(tag.genre);
    lemma_filled(tag.album_artist);
}

proof fn lemma_filled(text: Option<String>)
    ensures
        text matches Some(t) ==> (says_something(t@) ==> filled(text) == Some(t@)),
        text is None ==> filled(text) is None,
{
    if let Some(t) = text {
        if says_something(t@) {
            let i = choose|i: int| 0 <= i < t@.len() && !white(#[trigger] t@[i]);
            lemma_says_something(t@, i);
        }
    }
}

/// Every number of a description is that of the tag of the same name. A track or a
/// disc that the tag does not number has the number in the file's name, and a year
/// that it does not say is that of the recording date.
pub proof fn each_number_is_its_own_tag(
    m: Metadata,
    extension: Seq<char>,
    stem: Option<Seq<char>>,
    position: FilenamePosition,
    tag: Tag,
    properties: Properties,
    text: String,
    n: nat,
)
    requires
        describes(m, extension, stem, position, tag, properties),
        n <= 0xffff_ffff,
        text@ == decimal(n),
    ensures
        tag.track_number == Some(text) ==> m.track_number == Some(n as u32),
        tag.track_number is None ==> m.track_number == position.track,
        tag.track_total == Some(text) ==> m.track_total == Some(n as u32),
        tag.track_total is None ==> m.track_total is None,
        tag.disc_number == Some(text) ==> m.disc_number == Some(n as u32),
        tag.disc_number is None ==> m.disc_number == position.disc,
        tag.disc_total == Some(text) ==> m.disc_total == Some(n as u32),
        tag.disc_total is None ==> m.disc_total is None,
        tag.year == Some(text) ==> m.year == Some(n as u32),
        tag.year is None && tag.recording_date is None ==> m.year is None,
        tag.year is None ==> m.year == dated(filled(tag.recording_date)),
        m.duration_nanos == properties.duration_nanos,
        m.sample_rate == properties.sample_rate,
        m.bit_depth == properties.bit_depth,
        m.channels == properties.channels,
{
    a_tagged_number_ends_at_a_slash(text, n, Seq::empty());
}

/// The audio that can be decoded is told by these endings, in any case, and lossless
/// audio by the last four.
pub open spec fn endings() -> Seq<Seq<char>> {
    seq![
        "mp3"@,
        "m4a"@,
        "aac"@,
        "ogg"@,
        "opus"@,
        "flac"@,
        "wav"@,
        "aif"@,
        "aiff"@,
    ]
}

/// A file is audio by its ending alone, in whatever case it is written, and is
/// always lossless if it ends in one of four.
pub proof fn audio_is_told_by_its_ending(extension: Seq<char>, i: int)
    requires
        0 <= i < 9,
    ensures
        lowered(extension) == endings()[i] ==> known(Some(extension)) == Some(endings()[i]),
        !endings().contains(lowered(extension)) ==> known(Some(extension)) is None,
        known(None) is None,
        extension == endings()[i] && i >= 5 ==> listed(LOSSLESS_EXTENSIONS@, extension),
        !endings().skip(5).contains(extension) ==> !listed(LOSSLESS_EXTENSIONS@, extension),
{
    let (all, whole) = (AUDIO_EXTENSIONS@, LOSSLESS_EXTENSIONS@);
    let text = lowered(extension);
    let at = seq![0, 3, 4, 5, 6, 1, 2, 7, 8int][i];
    assert(all[at]@ == endings()[i]);
    assert forall|j: int| 0 <= j < 9 implies endings().contains(#[trigger] all[j]@) by {
        let k = seq![0, 5, 6, 1, 2, 3, 4, 7, 8int][j];
        assert(all[j]@ == endings()[k]);
    }
    if i >= 5 {
        assert(whole[i - 5]@ == endings()[i]);
    }
    assert forall|j: int| 0 <= j < 4 implies endings().skip(5).contains(#[trigger] whole[j]@) by {
        assert(endings().skip(5)[j] == endings()[j + 5]);
    }
}

/// Where nothing is said, nothing is taken over.
pub proof fn white_space_says_nothing(text: String)
    requires
        forall|i: int| 0 <= i < text@.len() ==> white(#[trigger] text@[i]),
    ensures
        filled(Some(text)) is None,
{
    lemma_all_lead(text@);
}

proof fn lemma_all_lead(text: Seq<char>)
    requires
        forall|i: int| 0 <= i < text.len() ==> white(#[trigger] text[i]),
    ensures
        trimmed(text).len() == 0,
    decreases text.len(),
{
    if text.len() > 0 {
        let rest = text.skip(1);
        assert(white(text[0]));
        assert forall|i: int| 0 <= i < rest.len() implies white(#[trigger] rest[i]) by {
            assert(rest[i] == text[i + 1]);
        }
        lemma_all_lead(rest);
    }
}

/// What is read of a file: nothing but an error where its ending is not one of
/// audio, the failure where it could not be opened, and else what its primary tag
/// says, or its first where there is no primary one.
pub proof fn a_file_is_read_by_its_primary_tag(
    extension: Option<Seq<char>>,
    stem: Option<Seq<char>>,
    legible: bool,
    opened: Result<Opened, String>,
    read: Result<Metadata, String>,
)
    requires
        reads(extension, stem, legible, opened, read),
    ensures
        known(extension) is None ==> (read matches Err(message) && message@
            == "not an audio file"@),
        known(extension) is Some ==> (opened matches Err(failure) ==> read == Err::<
            Metadata,
            String,
        >(failure)),
        known(extension) is Some ==> (opened matches Ok(file) ==> read matches Ok(m) && {
            let position = if legible && stem is Some {
                position_of(stem->0)
            } else {
                FilenamePosition { disc: None, track: None }
            };
            let ending = known(extension)->0;
            &&& file.primary matches Some(tag) ==> describes(
                m,
                ending,
                stem,
                position,
                tag,
                file.properties,
            )
            &&& file.primary is None ==> (file.first matches Some(tag) ==> describes(
                m,
                ending,
                stem,
                position,
                tag,
                file.properties,
            ))
            &&& m.format@ == Seq::new(
                ending.len(),
                |i: int|
                    if 'a' <= ending[i] && ending[i] <= 'z' {
                        (ending[i] as u32 - 32) as char
                    } else {
                        ending[i]
                    },
            )
        }),
{
    if let (Some(ending), Ok(file), Ok(m)) = (known(extension), opened, read) {
        assert(m.format@ =~= Seq::new(
            ending.len(),
            |i: int|
                if 'a' <= ending[i] && ending[i] <= 'z' {
                    (ending[i] as u32 - 32) as char
                } else {
                    ending[i]
                },
        ));
    }
}

/// A picture of up to ten times 1024 times 1024 bytes is shown, in base64 and as
/// what it says to be, or as a JPEG where it says nothing; a larger one is not.
pub proof fn a_picture_is_shown_up_to_ten_megabytes(cover: Option<CoverArt>, picture: Picture)
    requires
        shows(cover, picture),
    ensures
        cover is Some <==> picture.data@.len() <= 10 * 1024 * 1024,
        cover matches Some(art) ==> {
            &&& art.data_base64@ == base64_text(picture.data@)
            &&& picture.mime matches Some(mime) ==> art.mime@ == mime@
            &&& picture.mime is None ==> art.mime@ == "image/jpeg"@
        },
{
}

/// Digits that run on are no track: more than three of them, or with anything behind
/// them that is neither white space nor a dash, a dot or an underscore.
pub proof fn digits_that_run_on_are_no_track(number: Seq<char>, rest: Seq<char>)
    requires
        number.len() > 0,
        only_digits(number),
        rest.len() > 0 ==> !('0' <= rest[0] && rest[0] <= '9') && !white(rest.last()),
        number.len() > 3 || (rest.len() > 0 && !white(rest[0]) && rest[0] != '-' && rest[0] != '.'
            && rest[0] != '_'),
    ensures
        position_of(number + rest) == (FilenamePosition { disc: None, track: None }),
{
    let name = number + rest;
    assert('0' <= number[0] && number[0] <= '9');
    assert(name[0] == number[0]);
    assert('0' <= number[number.len() - 1] && number[number.len() - 1] <= '9');
    assert(name.last() == if rest.len() > 0 {
        rest.last()
    } else {
        number.last()
    });
    lemma_no_space(name);
    let wanted = |c: char| digit(c);
    assert forall|i: int| 0 <= i < number.len() implies wanted(#[trigger] name[i]) by {
        assert('0' <= number[i] && number[i] <= '9');
    }
    if rest.len() > 0 {
        assert(name[number.len() as int] == rest[0]);
    }
    lemma_run(name, wanted, number.len());
    assert(name.skip(number.len() as int) =~= rest);
    if number.len() == 1 {
        assert(name[1] == rest[0]);
    }
}

/// A name that does not begin with a digit says no position.
pub proof fn a_name_without_digits_has_no_track(name: Seq<char>)
    requires
        name.len() > 0,
        !white(name[0]),
        !white(name.last()),
        !('0' <= name[0] && name[0] <= '9'),
    ensures
        position_of(name) == (FilenamePosition { disc: None, track: None }),
{
    lemma_no_space(name);
    lemma_run(name, |c: char| digit(c), 0);
}

/// A text that has anything in it but digits, behind a plus sign at most, is no
/// number, and neither is one without a digit.
pub proof fn only_digits_are_a_number(text: Seq<char>, i: int)
    requires
        0 <= i < text.len(),
        !('0' <= text[i] && text[i] <= '9'),
        i > 0 || text[0] != '+' || text.len() == 1,
    ensures
        number_in(text) is None,
        number_in(Seq::<char>::empty()) is None,
{
    if text[0] == '+' {
        let rest = text.skip(1);
        if i > 0 {
            assert(rest[i - 1] == text[i]);
            assert(!digit(rest[i - 1]));
        }
    } else {
        assert(!digit(text[i]));
    }
}

/// A date of fewer than four characters has no year, nor has one that does not begin
/// with a number.
pub proof fn a_short_date_has_no_year(date: Seq<char>, i: int)
    requires
        date.len() < 4 || (0 < i < 4 && !('0' <= date[i] && date[i] <= '9')),
    ensures
        dated(Some(date)) is None,
        dated(None) is None,
{
    if date.len() >= 4 {
        assert(date.take(4)[i] == date[i]);
        only_digits_are_a_number(date.take(4), i);
    }
}

/// A name that has no dot but the one that it begins with has no extension, and is
/// its own stem. A folder above is no file's name.
pub proof fn a_leading_dot_is_no_ending(folder: Seq<char>, name: Seq<char>)
    requires
        name.len() > 0,
        forall|i: int| 0 <= i < name.len() ==> #[trigger] name[i] != '/' && name[i] != '.',
    ensures
        extension_text(folder.push('/') + name) is None,
        stem_text(folder.push('/') + name) == Some(name),
        extension_text(folder.push('/') + (seq!['.'] + name)) is None,
        stem_text(folder.push('/') + (seq!['.'] + name)) == Some(seq!['.'] + name),
        file_name(folder.push('/') + seq!['.', '.']) is None,
{
    lemma_behind_a_mark(folder, '/', name);
    lemma_behind_a_mark(Seq::empty(), '.', name);
    let dotted = seq!['.'] + name;
    assert forall|i: int| 0 <= i < dotted.len() implies #[trigger] dotted[i] != '/' by {
        if i > 0 {
            assert(dotted[i] == name[i - 1]);
        }
    }
    lemma_behind_a_mark(folder, '/', dotted);
    assert(Seq::<char>::empty().push('.') + name =~= dotted);
    assert(name[0] != '.');
    assert(dotted.len() >= 2);
    assert(dotted[1] == name[0]);
    assert(dotted != seq!['.', '.']);
    assert(name != seq!['.', '.'] && name != seq!['.']) by {
        assert(seq!['.', '.'][0] == '.' && seq!['.'][0] == '.');
    }
    let above = seq!['.', '.'];
    assert forall|i: int| 0 <= i < 2 implies #[trigger] above[i] != '/' by {}
    lemma_behind_a_mark(folder, '/', above);
}

} // verus!
