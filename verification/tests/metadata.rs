//! What tags and names say, with files read in memory.
use std::io::Cursor;

use audio_stack_rs::metadata::{
    audio_extension, is_lossless, is_white, known_extension, metadata_of, position_in_stem, read_cover,
    read_metadata, track_number_from_filename, CoverArt, FilenamePosition, Metadata, Opened,
    Picture, Properties, Tag, AUDIO_EXTENSIONS, LOSSLESS_EXTENSIONS, MAX_EMBEDDED_COVER_BYTES,
};
use lofty::config::WriteOptions;
use lofty::file::{AudioFile, TaggedFile, TaggedFileExt};
use lofty::picture::{MimeType, PictureType};
use lofty::probe::Probe;
use lofty::tag::{Accessor, ItemKey, TagExt, TagType};

#[test]
fn audio_extension_accepts_known_formats_case_insensitively() {
    assert_eq!(audio_extension("/m/a.FLAC").as_deref(), Some("flac"));
    assert_eq!(audio_extension("/m/b.mp3").as_deref(), Some("mp3"));
    assert_eq!(audio_extension("/m/c.txt"), None);
    assert_eq!(audio_extension("/m/noext"), None);
}

#[test]
fn lossless_extensions_are_a_subset_of_audio_extensions() {
    for ext in LOSSLESS_EXTENSIONS {
        assert!(
            AUDIO_EXTENSIONS.contains(&ext),
            "{ext} missing from AUDIO_EXTENSIONS"
        );
    }
    // m4a stays out deliberately: AAC-or-ALAC, reported lossy.
    assert!(!LOSSLESS_EXTENSIONS.contains(&"m4a"));
}

fn position(name: &str) -> FilenamePosition {
    track_number_from_filename(name)
}

#[test]
fn reads_a_leading_track_number() {
    for name in [
        "07 - Alive.flac",
        "07 Alive.flac",
        "07. Alive.flac",
        "07.Alive.flac",
        "07_Alive.flac",
    ] {
        assert_eq!(position(name).track, Some(7), "{name} should give track 7");
    }
}

#[test]
fn reads_a_disc_and_track_pair() {
    assert_eq!(
        position("2-03 Reprise.mp3"),
        FilenamePosition {
            disc: Some(2),
            track: Some(3)
        }
    );
    assert_eq!(
        position("1_11 Closing Time.mp3"),
        FilenamePosition {
            disc: Some(1),
            track: Some(11)
        }
    );
}

#[test]
fn a_three_digit_number_is_still_a_track() {
    // Some rips number across discs: 104 = disc 1, track 4.
    assert_eq!(position("104 - Title.m4a").track, Some(104));
}

#[test]
fn a_year_is_not_a_track_number() {
    // The guard that matters: four digits are never a position, so this must
    // not read as track 198.
    assert_eq!(position("1984 - Track.mp3"), FilenamePosition::default());
    assert_eq!(
        position("2001 A Space Odyssey.mp3"),
        FilenamePosition::default()
    );
}

#[test]
fn digits_running_into_the_title_are_not_a_track_number() {
    assert_eq!(position("07Alive.flac"), FilenamePosition::default());
    assert_eq!(position("99Luftballons.mp3"), FilenamePosition::default());
}

#[test]
fn a_filename_with_no_leading_digits_yields_nothing() {
    assert_eq!(position("Alive.flac"), FilenamePosition::default());
    assert_eq!(
        position("Pearl Jam - Alive.flac"),
        FilenamePosition::default()
    );
}

#[test]
fn track_zero_is_treated_as_absent() {
    // "00 - Intro" is a hidden-track convention, not position zero.
    assert_eq!(position("00 - Intro.mp3").track, None);
}

#[test]
fn a_bare_number_is_the_whole_name() {
    assert_eq!(position("03.mp3").track, Some(3));
}

/// A minimal untagged WAV.
fn wav() -> Vec<u8> {
    let (rate, channels, frames) = (44_100u32, 1u16, 100usize);
    let block_align = channels * 2;
    let data_len = frames as u32 * block_align as u32;
    let mut wav = Vec::new();
    wav.extend_from_slice(b"RIFF");
    wav.extend_from_slice(&(36 + data_len).to_le_bytes());
    wav.extend_from_slice(b"WAVEfmt ");
    wav.extend_from_slice(&16u32.to_le_bytes());
    wav.extend_from_slice(&1u16.to_le_bytes());
    wav.extend_from_slice(&channels.to_le_bytes());
    wav.extend_from_slice(&rate.to_le_bytes());
    wav.extend_from_slice(&(rate * block_align as u32).to_le_bytes());
    wav.extend_from_slice(&block_align.to_le_bytes());
    wav.extend_from_slice(&16u16.to_le_bytes());
    wav.extend_from_slice(b"data");
    wav.extend_from_slice(&data_len.to_le_bytes());
    wav.extend_from_slice(&vec![0u8; data_len as usize]);
    wav
}

fn probe(file: Vec<u8>) -> TaggedFile {
    Probe::new(Cursor::new(file))
        .guess_file_type()
        .expect("a file type")
        .read()
        .expect("a readable file")
}

/// What the library takes of a tag.
fn plain_tag(tag: &lofty::tag::Tag) -> Tag {
    let text = |key: ItemKey| tag.get_string(&key).map(str::to_string);
    Tag {
        title: tag.title().map(|c| c.into_owned()),
        artist: tag.artist().map(|c| c.into_owned()),
        album: tag.album().map(|c| c.into_owned()),
        composer: text(ItemKey::Composer),
        track_number: text(ItemKey::TrackNumber),
        track_total: text(ItemKey::TrackTotal),
        disc_number: text(ItemKey::DiscNumber),
        disc_total: text(ItemKey::DiscTotal),
        year: text(ItemKey::Year),
        recording_date: text(ItemKey::RecordingDate),
        genre: text(ItemKey::Genre),
        album_artist: text(ItemKey::AlbumArtist),
        ..Tag::default()
    }
}

/// What the library takes of a file.
fn opened(file: Vec<u8>) -> Opened {
    let tagged = probe(file);
    let properties = tagged.properties();
    Opened {
        primary: tagged.primary_tag().map(plain_tag),
        first: tagged.first_tag().map(plain_tag),
        properties: Properties {
            duration_nanos: properties.duration().as_nanos(),
            sample_rate: properties.sample_rate(),
            bit_depth: properties.bit_depth(),
            channels: properties.channels(),
        },
    }
}

fn scanned(path: &str, file: Vec<u8>) -> Metadata {
    read_metadata(path, true, Ok(opened(file))).expect("should scan")
}

#[test]
fn an_untagged_file_still_gets_its_position_from_its_name() {
    // No tags at all, so everything shown about this track has to come from
    // the file's name and the decoder.
    let meta = scanned("audio-stack-scan-test/04 - Blue in Green.wav", wav());

    assert_eq!(meta.track_number, Some(4), "recovered from the filename");
    assert_eq!(meta.title, "04 - Blue in Green", "the stem is the title");
    assert_eq!(meta.disc_number, None);
    assert_eq!(meta.year, None);
    assert_eq!(meta.format, "WAV");
    assert!(meta.lossless);
    assert_eq!(meta.sample_rate, Some(44_100));
    assert_eq!(meta.channels, Some(1));
    assert_eq!(meta.bit_depth, Some(16));
}

#[test]
fn a_disc_prefixed_name_survives_parsing() {
    let meta = scanned("audio-stack-scan-test/2-11 Reprise.wav", wav());
    assert_eq!(meta.disc_number, Some(2));
    assert_eq!(meta.track_number, Some(11));
}

fn saved(tag: lofty::tag::Tag) -> Vec<u8> {
    let mut file = Cursor::new(wav());
    tag.save_to(&mut file, WriteOptions::default())
        .expect("write tag");
    file.into_inner()
}

/// A WAV with a picture in its tag.
fn with_picture(kind: PictureType, data: Vec<u8>) -> Vec<u8> {
    let mut tag = lofty::tag::Tag::new(TagType::Id3v2);
    tag.push_picture(lofty::picture::Picture::new_unchecked(
        kind,
        Some(MimeType::Jpeg),
        None,
        data,
    ));
    saved(tag)
}

/// Not a real JPEG: nothing decodes it.
fn picture_bytes() -> Vec<u8> {
    vec![0xFF, 0xD8, 0xFF, 0xE0, 1, 2, 3, 4]
}

fn cover_of(file: Vec<u8>) -> Option<CoverArt> {
    let tagged = probe(file);
    let pictures = tagged
        .tags()
        .iter()
        .flat_map(|tag| tag.pictures())
        .map(|p| Picture {
            front: p.pic_type() == PictureType::CoverFront,
            mime: p.mime_type().map(|m| m.to_string()),
            data: p.data().to_vec(),
        })
        .collect();
    read_cover(pictures)
}

#[test]
fn cover_art_is_read_back_from_the_file() {
    let cover = cover_of(with_picture(PictureType::CoverFront, picture_bytes()))
        .expect("the picture just written should come back");
    assert_eq!(cover.mime, "image/jpeg");
    assert!(!cover.data_base64.is_empty());
    assert_eq!(cover.data_base64, "/9j/4AECAwQ=");
}

#[test]
fn a_file_with_no_picture_yields_none() {
    assert!(cover_of(wav()).is_none());
}

#[test]
fn a_back_cover_is_used_when_there_is_no_front() {
    // Better the back of the sleeve than nothing.
    assert!(cover_of(with_picture(PictureType::CoverBack, picture_bytes())).is_some());
}

#[test]
fn an_absurdly_large_embedded_cover_is_skipped() {
    let data = vec![0u8; MAX_EMBEDDED_COVER_BYTES + 1];
    assert!(
        cover_of(with_picture(PictureType::CoverFront, data)).is_none(),
        "a picture past the cap must not be ballooned into a payload"
    );
}

#[test]
fn tags_win_over_the_name() {
    let mut tag = lofty::tag::Tag::new(TagType::Id3v2);
    tag.set_title("So What".to_string());
    tag.set_artist("  ".to_string());
    tag.insert_text(ItemKey::TrackNumber, "9".to_string());
    tag.insert_text(ItemKey::RecordingDate, "1959-08-17".to_string());
    let meta = scanned("1-04 Blue in Green.wav", saved(tag));
    assert_eq!(meta.title, "So What");
    assert_eq!(meta.artist, None, "a blank artist is none");
    assert_eq!(meta.track_number, Some(9));
    assert_eq!(meta.disc_number, Some(1), "only the name says a disc");
    assert_eq!(meta.year, Some(1959));
}

fn described(tag: Tag) -> Metadata {
    let properties = Properties {
        duration_nanos: 1_500_000_000,
        sample_rate: None,
        bit_depth: None,
        channels: None,
    };
    metadata_of("m4a", None, FilenamePosition::default(), Some(tag), properties)
}

fn text(value: &str) -> Option<String> {
    Some(value.to_string())
}

#[test]
fn numbers_are_read_up_to_a_slash() {
    let meta = described(Tag {
        track_number: text(" 3 /12"),
        track_total: text("12"),
        disc_number: text("+2"),
        disc_total: text("two"),
        ..Tag::default()
    });
    assert_eq!(meta.track_number, Some(3));
    assert_eq!(meta.track_total, Some(12));
    assert_eq!(meta.disc_number, Some(2));
    assert_eq!(meta.disc_total, None);
}

#[test]
fn numbers_past_thirty_two_bits_are_none() {
    let meta = described(Tag {
        track_number: text("4294967295"),
        disc_number: text("4294967296"),
        track_total: text(""),
        disc_total: text("+"),
        ..Tag::default()
    });
    assert_eq!(meta.track_number, Some(u32::MAX));
    assert_eq!(meta.disc_number, None);
    assert_eq!(meta.track_total, None);
    assert_eq!(meta.disc_total, None);
}

#[test]
fn years_come_from_the_year_or_the_date() {
    let year = |year: &str, date: &str| {
        described(Tag {
            year: text(year),
            recording_date: text(date),
            ..Tag::default()
        })
        .year
    };
    assert_eq!(year("1984", "1999-01-01"), Some(1984));
    assert_eq!(year("unknown", "1999-01-01"), Some(1999));
    assert_eq!(year("", "199"), None);
    assert_eq!(year("", "Mai 1999"), None);
    assert_eq!(year("", "19é9"), None);
}

#[test]
fn a_file_with_no_name_at_all_is_unknown() {
    let meta = described(Tag {
        title: text("\u{2003}\t"),
        genre: text(" Jazz "),
        rg_track_gain: text("-6.5 dB"),
        ..Tag::default()
    });
    assert_eq!(meta.title, "Unknown");
    assert_eq!(meta.genre.as_deref(), Some(" Jazz "), "kept as it stands");
    assert_eq!(meta.rg_track_gain.as_deref(), Some("-6.5 dB"));
    assert_eq!(meta.format, "M4A");
    assert!(!meta.lossless);
    assert_eq!(meta.duration_nanos, 1_500_000_000);
}

#[test]
fn what_cannot_be_decoded_is_refused_before_it_is_read() {
    let failure = read_metadata("notes.txt", true, Ok(opened(wav()))).err().unwrap();
    assert_eq!(failure, "not an audio file");
    let failure = read_metadata("a.mp3", true, Err("probe a.mp3: gone".to_string()))
        .err()
        .unwrap();
    assert_eq!(failure, "probe a.mp3: gone");
}

#[test]
fn a_name_that_is_no_text_says_no_position() {
    let meta = read_metadata("07 \u{fffd}.wav", false, Ok(opened(wav()))).unwrap();
    assert_eq!(meta.track_number, None);
    assert_eq!(meta.title, "07 \u{fffd}");
}

#[test]
fn extensions_follow_the_last_dot() {
    assert_eq!(audio_extension("a.b/c.mp3").as_deref(), Some("mp3"));
    assert_eq!(audio_extension("a.mp3/c"), None);
    assert_eq!(audio_extension(".mp3"), None, "a hidden file has none");
    assert_eq!(audio_extension("x..wav").as_deref(), Some("wav"));
    assert_eq!(audio_extension("x.wav."), None);
    assert_eq!(audio_extension("x/b.mp3/").as_deref(), Some("mp3"), "a slash behind it");
    assert_eq!(audio_extension("x/b.mp3/./").as_deref(), Some("mp3"), "or a dot");
    assert_eq!(audio_extension("./b.mp3").as_deref(), Some("mp3"));
    assert_eq!(audio_extension("b.mp3/.."), None, "the parent names no file");
    assert_eq!(audio_extension("/"), None);
    assert_eq!(audio_extension("."), None);
    assert_eq!(audio_extension(""), None);
    assert_eq!(known_extension(text("OpUs")).as_deref(), Some("opus"));
    assert_eq!(known_extension(None), None);
    assert!(is_lossless("aiff") && !is_lossless("ogg"));
}

#[test]
fn white_space_of_every_kind_is_trimmed() {
    let third = FilenamePosition {
        disc: None,
        track: Some(3),
    };
    assert_eq!(position_in_stem("  03 Title"), third);
    assert_eq!(position_in_stem("\u{3000}03\u{a0}Title\u{2028}"), third);
    assert_eq!(position_in_stem("03"), third);
    assert_eq!(position_in_stem(""), FilenamePosition::default());
}

#[test]
fn white_space_is_what_unicode_says() {
    for c in '\0'..=char::MAX {
        assert_eq!(is_white(c), c.is_whitespace(), "{c:?}");
    }
}

#[test]
fn a_pair_needs_its_separator() {
    assert_eq!(
        position_in_stem("2-03Reprise"),
        FilenamePosition {
            disc: None,
            track: Some(2)
        },
        "the dash still separates the first number"
    );
    assert_eq!(
        position_in_stem("0-00 Reprise"),
        FilenamePosition::default()
    );
    assert_eq!(position_in_stem("12-03 Reprise").track, Some(12));
    assert_eq!(position_in_stem("2-0345 Reprise").track, Some(2));
}

fn picture(front: bool, mime: Option<&str>, data: &[u8]) -> Picture {
    Picture {
        front,
        mime: mime.map(str::to_string),
        data: data.to_vec(),
    }
}

#[test]
fn the_front_cover_is_preferred() {
    let cover = read_cover(vec![
        picture(false, Some("image/png"), b"a"),
        picture(true, None, b"hello world"),
        picture(true, Some("image/png"), b"c"),
    ])
    .unwrap();
    assert_eq!(cover.mime, "image/jpeg", "a JPEG unless said otherwise");
    assert_eq!(cover.data_base64, "aGVsbG8gd29ybGQ=");
    let cover = read_cover(vec![
        picture(false, Some("image/png"), b"ab"),
        picture(false, None, b"b"),
    ])
    .unwrap();
    assert_eq!(cover.mime, "image/png");
    assert_eq!(cover.data_base64, "YWI=");
}

#[test]
fn base64_has_the_standard_alphabet_and_padding() {
    let encoded = |data: &[u8]| read_cover(vec![picture(true, None, data)]).unwrap().data_base64;
    assert_eq!(encoded(b""), "");
    assert_eq!(encoded(b"f"), "Zg==");
    assert_eq!(encoded(b"fo"), "Zm8=");
    assert_eq!(encoded(b"foo"), "Zm9v");
    assert_eq!(encoded(&[0xfb, 0xff, 0xbf]), "+/+/");
    let bytes: Vec<u8> = (0..=255).collect();
    let text = encoded(&bytes);
    assert_eq!(text.len(), 344);
    assert!(text.starts_with("AAECAwQFBgcICQoLDA0ODxAREhMUFRYXGBkaGxwdHh8gISIj"));
    assert!(text.ends_with("+fr7/P3+/w=="));
}

#[test]
fn a_colon_in_a_name_is_part_of_it() {
    let meta = read_metadata("01 Intro: Dawn.wav", true, Ok(opened(wav()))).unwrap();
    assert_eq!(meta.title, "01 Intro: Dawn");
    assert_eq!(meta.track_number, Some(1));
    assert_eq!(audio_extension("a/01 Intro: Dawn.flac").as_deref(), Some("flac"));
}

#[test]
fn each_number_of_the_tag_wins_for_itself() {
    let mut file = opened(wav());
    file.primary = Some(Tag { track_number: text("9/12"), ..Tag::default() });
    let meta = read_metadata("2-03 Reprise.wav", true, Ok(file)).unwrap();
    assert_eq!(meta.track_number, Some(9), "the tag's");
    assert_eq!(meta.disc_number, Some(2), "the name's");
    assert_eq!(meta.track_total, None, "never the name's");
}

#[test]
fn the_first_tag_serves_where_there_is_no_primary_one() {
    let mut file = opened(wav());
    file.first = Some(Tag { title: text("First"), ..Tag::default() });
    let meta = read_metadata("a.wav", true, Ok(file)).unwrap();
    assert_eq!(meta.title, "First");
    let mut file = opened(wav());
    file.first = Some(Tag { title: text("First"), ..Tag::default() });
    file.primary = Some(Tag { title: text("Primary"), ..Tag::default() });
    let meta = read_metadata("a.wav", true, Ok(file)).unwrap();
    assert_eq!(meta.title, "Primary");
}

#[test]
fn drives_shares_and_backslashes_name_audio_files_too() {
    assert_eq!(audio_extension(r"C:\Music\a.flac").as_deref(), Some("flac"));
    assert_eq!(audio_extension(r"c:a.MP3").as_deref(), Some("mp3"));
    assert_eq!(audio_extension(r"\\host\share\a.ogg").as_deref(), Some("ogg"));
    assert_eq!(audio_extension("//host/share/a.ogg").as_deref(), Some("ogg"));
    assert_eq!(audio_extension(r"C:\Music\a.txt"), None);
    let meta = read_metadata(r"C:\Music\a.wav", true, Ok(opened(wav()))).unwrap();
    assert_eq!(meta.format, "WAV");
    assert_eq!(
        read_metadata(r"C:\Music\a.txt", true, Ok(opened(wav()))).unwrap_err(),
        "not an audio file"
    );
}
