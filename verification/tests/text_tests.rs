use vget::auth::{extract_bilibili_cookies, qr_poll_result, xhs_cookies_path};
use vget::document::PdfError;
use vget::downloader::{is_terminal, DownloadStatus};
use vget::images::{images_to_pdf, Frac, PageDims};
use vget::md2pdf::{generate_styled_html, get_theme_css, html_escape, DARK_THEME_CSS, LIGHT_THEME_CSS};

#[test]
fn test_extract_cookies_trims_and_orders() {
    let headers = vec![
        "SESSDATA=abc; Path=/; HttpOnly".to_string(),
        " bili_jct = tok ; Secure".to_string(),
        "DedeUserID=42".to_string(),
        "other=x".to_string(),
    ];
    assert_eq!(
        extract_bilibili_cookies(&headers),
        "SESSDATA=abc; bili_jct=tok; DedeUserID=42"
    );
}

#[test]
fn test_extract_cookies_last_assignment_wins() {
    let headers = vec![
        "SESSDATA=first; Path=/".to_string(),
        "SESSDATA=second".to_string(),
    ];
    assert_eq!(extract_bilibili_cookies(&headers), "SESSDATA=second");
}

#[test]
fn test_extract_cookies_drops_empty_values() {
    let headers = vec!["SESSDATA=; Path=/".to_string(), "DedeUserID=7".to_string()];
    assert_eq!(extract_bilibili_cookies(&headers), "DedeUserID=7");
}

#[test]
fn test_extract_cookies_empty_input() {
    assert_eq!(extract_bilibili_cookies(&vec![]), "");
}

#[test]
fn test_xhs_cookies_path_under_home() {
    assert_eq!(
        xhs_cookies_path("/home/u"),
        "/home/u/.config/vget/xhs_cookies.json"
    );
}

#[test]
fn test_qr_poll_result_texts() {
    assert_eq!(qr_poll_result(86101, None).status_text, "Waiting for scan");
    assert_eq!(
        qr_poll_result(86090, None).status_text,
        "Scanned, confirm on phone"
    );
    assert_eq!(qr_poll_result(86038, None).status_text, "QR code expired");
    let ok = qr_poll_result(0, Some("me".to_string()));
    assert_eq!(ok.status_text, "Login successful");
    assert_eq!(ok.username, Some("me".to_string()));
    assert_eq!(qr_poll_result(5, None).status_text, "Unknown status");
}

#[test]
fn test_download_status_terminal() {
    assert!(is_terminal(DownloadStatus::Completed));
    assert!(is_terminal(DownloadStatus::Failed));
    assert!(is_terminal(DownloadStatus::Cancelled));
    assert!(!is_terminal(DownloadStatus::Pending));
    assert!(!is_terminal(DownloadStatus::Downloading));
}

#[test]
fn test_html_escape_specials() {
    assert_eq!(
        html_escape("<a href=\"x\">&'</a>"),
        "&lt;a href=&quot;x&quot;&gt;&amp;&#39;&lt;/a&gt;"
    );
    assert_eq!(html_escape("plain"), "plain");
}

#[test]
fn test_theme_css_selection() {
    assert_eq!(get_theme_css("dark"), DARK_THEME_CSS);
    assert_eq!(get_theme_css("light"), LIGHT_THEME_CSS);
    assert_eq!(get_theme_css("anything"), LIGHT_THEME_CSS);
}

#[test]
fn test_generate_styled_html_layout() {
    let out = generate_styled_html("<p>hi</p>", "dark", "/* fonts */");
    let expected = format!(
        "<!DOCTYPE html>\n<html>\n<head>\n    <meta charset=\"UTF-8\">\n    <style>\n{}\n{}\n    </style>\n</head>\n<body>\n    <article class=\"markdown-body\">\n{}\n    </article>\n</body>\n</html>",
        "/* fonts */", DARK_THEME_CSS, "<p>hi</p>"
    );
    assert_eq!(out, expected);
}

#[test]
fn test_images_one_page_per_image() {
    // A 96-by-192 pixel image is an inch by two inches: 25.4 by 50.8 mm,
    // well inside the sheet, so it keeps its physical size.
    // A 4800-by-2400 image is 1270 by 635 mm and must shrink to width 210;
    // a 2400-by-4800 one must shrink to height 297.
    let dims = vec![(96u32, 192u32), (4800, 2400), (2400, 4800)];
    let pages = images_to_pdf(&dims).unwrap();
    assert_eq!(pages.len(), 3);
    assert_eq!(
        pages[0],
        PageDims {
            width: Frac { num: 127 * 96, den: 480 },
            height: Frac { num: 127 * 192, den: 480 },
        }
    );
    assert_eq!(
        pages[1],
        PageDims {
            width: Frac { num: 210, den: 1 },
            height: Frac { num: 210 * 2400, den: 4800 },
        }
    );
    assert_eq!(
        pages[2],
        PageDims {
            width: Frac { num: 297 * 2400, den: 4800 },
            height: Frac { num: 297, den: 1 },
        }
    );
    // Every page fits the sheet and keeps its image's aspect ratio.
    for (i, p) in pages.iter().enumerate() {
        let (w, h) = dims[i];
        assert!(p.width.num as u128 <= 210u128 * p.width.den as u128);
        assert!(p.height.num as u128 <= 297u128 * p.height.den as u128);
        assert_eq!(
            p.width.num as u128 * h as u128 * p.height.den as u128,
            p.height.num as u128 * w as u128 * p.width.den as u128
        );
    }
}

#[test]
fn test_images_empty_input_is_refused() {
    assert_eq!(images_to_pdf(&vec![]), Err(PdfError::NoInput));
}

#[test]
fn test_images_zero_sized_image() {
    let pages = images_to_pdf(&vec![(0u32, 0u32)]).unwrap();
    assert_eq!(
        pages[0],
        PageDims {
            width: Frac { num: 0, den: 480 },
            height: Frac { num: 0, den: 480 },
        }
    );
}
