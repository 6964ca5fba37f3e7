use thermaltaked::render::{
    clock_face, fan_cell, fan_center, fit_title, format_date, format_time, gauge_layout,
    labelled_layout, player_line, shorten, title_room, LocalTime,
};

/// Ten pixels a character, so the widths are easy to reason about.
fn fits(width: usize) -> impl Fn(&str) -> bool {
    move |text: &str| text.chars().count() * 10 <= width
}

#[test]
fn short_texts_are_left_alone() {
    assert_eq!(shorten("Adagio", fits(100)), "Adagio");
}

#[test]
fn long_texts_keep_as_much_as_fits() {
    assert_eq!(shorten("Adagio for Strings", fits(100)), "Adagio fo…");
    // A cut on a space does not leave it dangling before the ellipsis.
    assert_eq!(shorten("Adagio for Strings", fits(80)), "Adagio…");
    assert_eq!(shorten("Beyoncé Knowles", fits(80)), "Beyoncé…");
}

#[test]
fn nothing_when_not_even_the_ellipsis_fits() {
    assert_eq!(shorten("Adagio", fits(5)), "");
}

#[test]
fn the_result_never_overflows() {
    let text = "Exploration Of Space (Cosmic Gate Remix) — Live at Ushuaïa";
    for width in 0..700 {
        let short = shorten(text, fits(width));
        assert!(fits(width)(&short) || short.is_empty(), "{width}: {short}");
    }
}

#[test]
fn the_cut_is_the_longest_that_fits() {
    let text = "Exploration Of Space (Cosmic Gate Remix)";
    let chars: Vec<char> = text.chars().collect();
    let cut = |kept: usize| {
        let head: String = chars[..kept].iter().collect();
        format!("{}…", head.trim_end())
    };
    for width in 0..500 {
        let short = shorten(text, fits(width));
        if short == text || short.is_empty() {
            continue;
        }
        let kept = (0..chars.len()).rev().find(|&k| cut(k) == short).unwrap();
        assert!(fits(width)(&short));
        assert!(kept == chars.len() - 1 || !fits(width)(&cut(kept + 1)), "{width}");
    }
}

#[test]
fn an_empty_text_that_fits_comes_back() {
    assert_eq!(shorten("", fits(0)), "");
}

#[test]
fn clock_faces() {
    assert_eq!(clock_face(0), "0:00");
    assert_eq!(clock_face(59), "0:59");
    assert_eq!(clock_face(60), "1:00");
    assert_eq!(clock_face(418), "6:58");
    assert_eq!(clock_face(3725), "62:05");
}

fn moment(year: i32, month: u32, day: u32, weekday: u32, hour: u32, minute: u32) -> LocalTime {
    LocalTime { year, month, day, weekday, hour, minute }
}

#[test]
fn dates_as_the_panel_spells_them() {
    assert_eq!(format_date(&moment(2026, 9, 19, 5, 18, 45)), "Samedi 19/09/26");
    assert_eq!(format_date(&moment(2007, 1, 1, 0, 0, 0)), "Lundi 01/01/07");
    assert_eq!(format_date(&moment(2000, 12, 31, 6, 0, 0)), "Dimanche 31/12/00");
    assert_eq!(format_date(&moment(-1, 3, 4, 2, 0, 0)), "Mercredi 04/03/99");
}

#[test]
fn times_as_the_panel_shows_them() {
    assert_eq!(format_time(&moment(2026, 9, 19, 5, 18, 45)), "18:45");
    assert_eq!(format_time(&moment(2026, 9, 19, 5, 7, 3)), "07:03");
}

#[test]
fn the_artist_line_names_the_album_when_there_is_one() {
    assert_eq!(player_line(&"Tiësto".to_owned(), &String::new()), "Tiësto");
    assert_eq!(
        player_line(&"Tiësto".to_owned(), &"In Search of Sunrise".to_owned()),
        "Tiësto · In Search of Sunrise"
    );
}

#[test]
fn titles_lose_their_leading_words() {
    assert_eq!(fit_title("Radeon RX 9070 XT", fits(100)), "RX 9070 XT");
    assert_eq!(fit_title("Ryzen 9 9900X3D", fits(70)), "9900X3D");
    assert_eq!(fit_title("Ryzen 9 9900X3D", fits(200)), "Ryzen 9 9900X3D");
    // Nothing left to drop: the last word stays, too wide or not.
    assert_eq!(fit_title("Supercalifragilistic", fits(10)), "Supercalifragilistic");
}

#[test]
fn gauge_columns_share_the_left_panel() {
    let (width, lefts) = gauge_layout(false);
    assert_eq!(width, 139);
    assert_eq!(lefts, vec![8, 161]);
    let (width, lefts) = gauge_layout(true);
    assert_eq!(width, 88);
    assert_eq!(lefts, vec![8, 110, 212]);
}

#[test]
fn fan_cells() {
    assert_eq!(fan_cell(1), 96);
    assert_eq!(fan_cell(3), 96);
    assert_eq!(fan_cell(4), 73);
    assert_eq!(fan_center(73, 0), 8 + 36);
    assert_eq!(fan_center(73, 2), 8 + 146 + 36);
    assert_eq!(fan_cell(-4), -73);
    assert_eq!(fan_center(-73, 1), 8 - 73 - 36);
}

#[test]
fn header_pairs_lose_their_label_first() {
    assert_eq!(labelled_layout(90, 40, 100), Some((true, 90)));
    assert_eq!(labelled_layout(120, 40, 100), Some((false, 40)));
    assert_eq!(labelled_layout(120, 110, 100), None);
}

#[test]
fn the_title_room_leaves_the_clock_its_place() {
    assert_eq!(title_room(320, 30), 280);
}
