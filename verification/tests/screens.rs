use chrono::TimeZone;
use infoscreen::clock::{DateTime, Instant, Wait, MAX_SECS, MIN_SECS};
use infoscreen::config::{AgendaConfig, Auth, CalendarOpt, Config, UntisConfig};
use infoscreen::face::TimeRange;
use infoscreen::news::{self, FeedError, Headline};
use infoscreen::status::{self, Updater};

const FEED: &str = "<?xml version=\"1.0\"?><rss version=\"2.0\"><channel><title>News</title>\
<item><title> First: :</title><pubDate>Wed, 01 May 2024 10:30:00 +0000</pubDate></item>\
<item><title>No date</title></item>\
<item><pubDate>Wed, 01 May 2024 10:30:00 +0000</pubDate></item>\
<item><title>Second</title><pubDate>Thu, 02 May 2024 23:59:00 +0000</pubDate></item>\
</channel></rss>";

#[test]
fn headlines_have_a_title_and_a_date() {
    let headlines = news::read_headlines(&FEED.as_bytes().to_vec()).unwrap();
    assert_eq!(headlines.len(), 2);
    let first = chrono::Utc.with_ymd_and_hms(2024, 5, 1, 10, 30, 0).unwrap().with_timezone(&chrono::Local);
    assert_eq!(headlines[0].title, "First:");
    assert_eq!(headlines[0].date, first.format("%d.%m").to_string());
    assert_eq!(headlines[0].time, first.format("%H:%M").to_string());
    assert_eq!(headlines[1].title, "Second");
}

#[test]
fn titles_end_without_colons() {
    let t = DateTime { at: Instant { secs: 0, nanos: 0 }, offset: 5400 };
    let h = Headline::at_time(" A: B:: ", t);
    assert_eq!((h.title.as_str(), h.date.as_str(), h.time.as_str()), ("A: B::", "01.01", "01:30"));
    assert_eq!(Headline::at_time("X::", t).title, "X");
}

#[test]
fn headlines_need_a_title_and_a_time() {
    let t = DateTime { at: Instant { secs: 0, nanos: 0 }, offset: 0 };
    let items = vec![
        (Some("a".to_string()), Some(t.at)),
        (None, Some(t.at)),
        (Some("b".to_string()), None),
    ];
    let headlines = news::headlines_at(&items, &vec![Some(t), Some(t), None]);
    assert_eq!(headlines.len(), 1);
    assert_eq!(headlines[0].title, "a");
}

#[test]
fn feeds_that_cannot_be_read_are_errors() {
    assert!(matches!(news::read_headlines(&b"nothing".to_vec()), Err(FeedError::Parse(_))));
    assert!(matches!(news::read_headlines(&vec![]), Err(FeedError::Parse(_))));
}

fn readable(text: &str) -> bool {
    news::is_readable_feed(&text.as_bytes().to_vec())
}

const MEDIA: &str = "http://search.yahoo.com/mrss/";
const PODCAST: &str = "http://www.itunes.com/dtds/podcast-1.0.dtd";

#[test]
fn times_of_play_in_attributes_have_to_be_plain() {
    let readable = |text: &str| readable(&format!("<rss xmlns='{MEDIA}' xmlns:m = \"{MEDIA}\"xmlns:a\">\"='{MEDIA}'>{text}"));
    assert!(readable("<m:thumbnail time=\"12:05:01.123\"/>"));
    assert!(readable("<m:text start='1' end='2'>the end = 99999999999999999999</m:text>"));
    assert!(readable("<m:thumbnail time=\"1234567890123456789\" />"));
    assert!(readable("<m:thumbnail time=\"123456789012345:00:00\" />"));
    assert!(readable("<m:thumbnail time=\"a &amp; b\" />"));
    assert!(readable("<m:thumbnail data-time=\"\u{fc}\" start=\"\u{fc}\" />"));
    assert!(readable("<m:other time=\"99999999999999999999\" start=\"\u{663}\" />"));
    assert!(readable("</m:thumbnail time=\"\u{663}\"> <m:text> end='\u{663}'"));
    assert!(readable("<m:thumbnail time=\"18446744073709551614\" />"));
    assert!(readable("<m:thumbnail time=\"00000000000000000000000000000000001\" />"));
    assert!(readable("<m:thumbnail time=\"1.99999999999999999999\" />"));
    assert!(readable("<m:thumbnail time=\"1 99999999999999999999\" />"));
    assert!(readable("<thumbnail time=\"1234567890123456:00:00\" />"));
    assert!(readable("<m:text start = '12&#48;' end='1&#x30;&#x3a;' />"));
    assert!(readable("<m:text start='&#48;&#48;&#48;&#48;&#48;&#48;&#48;&#48;' end='&#; &#xg; &#4' />"));
    assert!(!readable("<m:thumbnail time=\"18446744073709551616\" />"));
    assert!(!readable("<thumbnail time=\"12345678901234567:00:00\" />"));
    assert!(!readable("<thumbnail time=\"1 99999999999999999999:00:00\" />"));
    assert!(!readable("<thumbnail time=\"9999999999999999&#57;:00:00\" />"));
    assert!(!readable("<m:text start = '&#1635;' />"));
    assert!(!readable("<m:text a=\">\"end=\"\u{663}\" />"));
    assert!(readable("<x:text end=\"\u{663}\" /><x:m:text end=\"\u{663}\" />"));
    assert!(!readable("<m:x:text end=\"\u{663}\" />"));
    assert!(!readable("<a\">\":text end=\"\u{663}\" />"));
}

#[test]
fn times_of_play_in_elements_have_to_be_plain() {
    let readable = |text: &str| {
        readable(&format!("<rss xmlns:=\"{PODCAST}\" xmlns:itunes=\"{PODCAST}\" xmlns:a=\"{PODCAST}\">{text}"))
    };
    assert!(readable("<itunes:duration>12:05:01</itunes:duration> <x>"));
    assert!(readable("<a:duration/><duration x=y />\u{663}<duration x='>'>5</duration>\u{663}"));
    assert!(readable("<media:content duration=\"12345678901234567890\">"));
    assert!(readable("<itunes:duration><![CDATA[12:05]]></itunes:duration>"));
    assert!(!readable("<itunes:duration><![CDATA[99999999999999999999]]></itunes:duration>"));
    assert!(!readable("<itunes:duration><![CDATA[1]]>2</itunes:duration>"));
    assert!(!readable("<itunes:duration>99999999999999999999</itunes:duration>"));
    assert!(!readable("<duration>\u{663}</duration>"));
    assert!(!readable("<duration>123<!-- -->456</duration>"));
    assert!(readable("<duration>&#49;</duration>"));
    assert!(!readable("<duration>&#x663;</duration>"));
    assert!(readable("<other:duration>\u{663}</other:duration>"));
}

#[test]
fn feeds_without_times_of_play_can_always_be_read() {
    assert!(readable("mrss itunes <m:thumbnail time=\"\u{663}\"/><duration>\u{663}</duration>"));
    assert!(readable(&format!("{MEDIA} <duration>\u{663}</duration>")));
    assert!(readable(&format!("{PODCAST} <m:thumbnail time=\"\u{663}\"/>")));
    assert!(news::is_readable_feed(&vec![60, 0]));
    assert!(news::is_readable_feed(&vec![60, 27, 255]));
}

#[test]
fn names_in_other_encodings_have_to_be_clear() {
    let wide = |text: &str| text.bytes().flat_map(|b| [b, 0]).collect::<Vec<u8>>();
    let feed = wide(&format!("<?xml version=\"1.0\"?><rss xmlns:m=\"{MEDIA}\" version=\"2.0\"><channel/></rss>"));
    assert!(news::is_readable_feed(&feed));
    assert!(matches!(news::read_headlines(&feed), Err(FeedError::Parse(_))));
    let mixed: Vec<u8> = format!("<rss xmlns=\"{MEDIA}\"> <\0t\0e\0x\0t end=\"\">").into_bytes();
    assert!(!news::is_readable_feed(&mixed));
    assert!(!readable("<rss xmlns='http://search.yahoo.com/m\u{1b}(Brss/'> <t\u{1b}(Bext>"));
    assert!(!readable("<rss xmlns='http://search.yahoo.com/m\u{1b}(Brss/'> <text e\u{1b}(Bnd='9'>"));
    assert!(readable("<rss xmlns='http://search.yahoo.com/m\u{1b}(Brss/'> <title a='\u{1b}$B'>\u{1b}$B</title>"));
    assert!(!readable("<rss xmlns='http://search.yahoo.com/m\u{1b}(Brss/'> <text end='\u{663}'>"));
}

#[test]
fn feeds_with_times_that_are_not_plain_are_errors() {
    let with = |time: &str| {
        let media = format!("<rss xmlns:m=\"{MEDIA}\" version");
        let item = format!("<item><m:thumbnail url=\"http://x.de/y\" time=\"{time}\"/>");
        FEED.replace("<rss version", &media).replace("<item>", &item).into_bytes()
    };
    assert!(matches!(news::read_headlines(&with("99999999999999999999")), Err(FeedError::Times)));
    assert_eq!(news::read_headlines(&with("999999999999999:00:00.5")).unwrap().len(), 2);
    assert_eq!(news::read_headlines(&with("9999999999999999999.999")).unwrap().len(), 2);
    assert_eq!(news::read_headlines(&with("&lt;\u{37}&gt;")).unwrap().len(), 2);
    assert_eq!(news::read_headlines(&with("1&#50;:&#x30;3:04")).unwrap().len(), 2);
    assert_eq!(news::read_headlines(&with("18446744073709551614.999")).unwrap().len(), 2);
    assert_eq!(news::read_headlines(&with("5124095576030430:00:00.999")).unwrap().len(), 2);
    assert_eq!(news::read_headlines(&with("7 99999999999999999999")).unwrap().len(), 2);
    let many = format!("0.{}", "9".repeat(300));
    assert_eq!(news::read_headlines(&with(&many)).unwrap().len(), 2);
    let other = FEED.replace("<title>News", "<x time='99999999999999999999'/><title>News");
    assert_eq!(news::read_headlines(&other.into_bytes()).unwrap().len(), 2);
}

#[test]
fn podcasts_have_headlines() {
    let with = |duration: &str| {
        let podcast = format!("<rss xmlns:itunes=\"{PODCAST}\" version");
        let item = format!("<item><itunes:duration>{duration}</itunes:duration>");
        FEED.replace("<rss version", &podcast).replace("<item>", &item).into_bytes()
    };
    assert_eq!(news::read_headlines(&with("<![CDATA[1:02:03]]>")).unwrap().len(), 2);
    assert_eq!(news::read_headlines(&with("9999999999999999999")).unwrap().len(), 2);
    assert_eq!(news::read_headlines(&with("1&#50;&amp;&#x33;")).unwrap().len(), 2);
    assert!(matches!(news::read_headlines(&with("\u{663}")), Err(FeedError::Times)));
}

#[test]
fn headlines_go_beyond_the_calendar() {
    let title = |t: DateTime| {
        let h = Headline::at_time("x", t);
        (h.date, h.time)
    };
    let text = |a: &str, b: &str| (a.to_string(), b.to_string());
    let last = Instant { secs: MAX_SECS, nanos: 0 };
    let first = Instant { secs: MIN_SECS, nanos: 0 };
    assert_eq!(title(DateTime { at: last, offset: 0 }), text("31.12", "23:59"));
    assert_eq!(title(DateTime { at: last, offset: 3601 }), text("01.01", "01:00"));
    assert_eq!(title(DateTime { at: first, offset: 0 }), text("01.01", "00:00"));
    assert_eq!(title(DateTime { at: first, offset: -3600 }), text("31.12", "23:00"));
    let east = chrono::FixedOffset::east_opt(3601).unwrap();
    let shown = chrono::DateTime::<chrono::Utc>::MAX_UTC.with_timezone(&east);
    assert_eq!(shown.format("%d.%m").to_string(), "01.01");
    let shown = chrono::DateTime::<chrono::Utc>::MIN_UTC.with_timezone(&chrono::FixedOffset::west_opt(3600).unwrap());
    assert_eq!(shown.format("%d.%m %H:%M").to_string(), "31.12 23:00");
}

#[test]
fn headlines_are_read_again_after_an_hour() {
    assert_eq!(news::headline_pause(false), Wait { secs: 3600, nanos: 0 });
    assert_eq!(news::headline_pause(true), Wait { secs: 10, nanos: 0 });
}

#[test]
fn errors_are_shown_with_their_cause() {
    assert_eq!(status::error_showable("failed", ""), "failed");
    assert_eq!(status::error_showable("failed", "a: b: c"), "failed\na\nb\nc");
    assert_eq!(status::error_showable("failed", ": "), "failed\n\n");
    assert_eq!(status::departure_status("failed", ""), "failed\n");
    assert_eq!(status::departure_status("failed", "a: b"), "failed\na\nb");
}

#[test]
fn updaters_that_end_are_named() {
    let all = [
        (Updater::Lectures, "failed to update lectures: x"),
        (Updater::Headlines, "failed to update headlines: x"),
        (Updater::Table, "failed to update table: x"),
        (Updater::Exams, "failed to update exams: x"),
        (Updater::Other, "failed to update: x"),
    ];
    for (updater, text) in all {
        assert_eq!(status::update_failed(updater, "x"), text);
    }
}

#[test]
fn panics_are_described() {
    assert_eq!(status::panic_description(Some("own".to_string()), None, "d"), "own");
    assert_eq!(status::panic_description(None, Some("lit"), "d"), "lit");
    assert_eq!(status::panic_description(None, None, "Any"), "unknown panic type: Any");
}

#[test]
fn settings_have_defaults() {
    let c = Config::default();
    assert_eq!(c.day_offset, 0);
    assert_eq!(c.time_off, TimeRange { start: 1900, end: 300 });
    assert!(c.untis.is_none() && c.newsfeed_url.is_none());
    assert_eq!((c.course_colors.default, c.location_colors.default), (0xFF666666, 0xFF666666));
    assert!(c.course_colors.map.is_empty() && c.location_colors.map.is_empty());
    let u = UntisConfig::default();
    assert_eq!((u.school.as_str(), u.faculty.as_str(), u.day_range), ("", "IM", 3));
    assert_eq!(u.auth.username, Auth::default().username);
}

#[test]
fn an_agenda_needs_calendars() {
    let mut a = AgendaConfig::default();
    assert_eq!((a.update_rate, a.show_completed_tasks), (120, 60));
    assert_eq!(a.check(), Err("no calendars configured!".to_string()));
    a.calendar.push(CalendarOpt {
        name: "n".to_string(),
        color: None,
        url: "u".to_string(),
        auth: None,
    });
    assert_eq!(a.check(), Ok(()));
}
