use vstd::prelude::*;

verus! {

use vstd::string::StringExecFns;
use vstd::string::StrSliceExecFns;

/// Styling for documents rendered on a light background.
pub const LIGHT_THEME_CSS: &'static str = r#"
@page {
    margin: 0;
    size: auto;
}

*, *::before, *::after {
    box-sizing: border-box;
}

html {
    font-size: 16px;
    -webkit-print-color-adjust: exact;
    print-color-adjust: exact;
    text-rendering: optimizeLegibility;
    -webkit-font-smoothing: antialiased;
    -moz-osx-font-smoothing: grayscale;
}

body {
    font-family: "Inter", -apple-system, BlinkMacSystemFont, "Segoe UI", "Helvetica Neue", Arial, sans-serif,
        "PingFang SC", "Hiragino Sans GB", "Microsoft YaHei",
        "Hiragino Kaku Gothic Pro", "Yu Gothic",
        "Apple SD Gothic Neo", "Malgun Gothic",
        "Apple Color Emoji", "Segoe UI Emoji";
    font-size: 1rem;
    font-weight: 400;
    line-height: 1.6;
    color: #111827;
    background-color: #ffffff;
    margin: 0;
    padding: 0;
    word-wrap: break-word;
    font-feature-settings: "kern" 1, "liga" 1, "calt" 1;
}

.markdown-body {
    max-width: 100%;
    margin: 0 auto;
    padding: 48px 56px;
}

/* ==================== Typography ==================== */

h1, h2, h3, h4, h5, h6 {
    font-weight: 600;
    line-height: 1.35;
    color: #111827;
    margin-top: 1.8em;
    margin-bottom: 0.6em;
    page-break-after: avoid;
    page-break-inside: avoid;
}

h1:first-child, h2:first-child, h3:first-child,
h4:first-child, h5:first-child, h6:first-child {
    margin-top: 0;
}

h1 {
    font-size: 2.2rem;
    padding-bottom: 0.3em;
    border-bottom: 1px solid #e5e7eb;
}

h2 {
    font-size: 1.6rem;
    padding-bottom: 0.2em;
    border-bottom: 1px solid #e5e7eb;
}

h3 {
    font-size: 1.3rem;
}

h4 {
    font-size: 1.1rem;
}

h5 {
    font-size: 1rem;
}

h6 {
    font-size: 0.95rem;
    color: #4b5563;
}

/* Paragraphs */
p {
    margin-top: 0;
    margin-bottom: 1em;
}

/* Links */
a {
    color: #0969da;
    text-decoration: none;
    border-bottom: 1px solid rgba(9, 105, 218, 0.2);
}

a:hover {
    border-bottom-color: rgba(9, 105, 218, 0.5);
}

/* ==================== Code ==================== */

code {
    font-family: "JetBrains Mono", "Fira Code", ui-monospace, SFMono-Regular, "SF Mono", Menlo, Monaco, Consolas, monospace;
    font-size: 0.9em;
    font-weight: 500;
    padding: 0.2em 0.4em;
    background-color: #f6f8fa;
    border-radius: 4px;
    color: #24292f;
    border: 1px solid #e5e7eb;
}

/* Code blocks - syntect generates pre with inline styles */
pre {
    font-family: "JetBrains Mono", "Fira Code", ui-monospace, SFMono-Regular, "SF Mono", Menlo, Monaco, Consolas, monospace;
    font-size: 0.88rem;
    line-height: 1.6;
    padding: 1em 1.2em;
    overflow-x: auto;
    background-color: #f6f8fa !important;
    border-radius: 6px;
    border: 1px solid #e5e7eb;
    margin-top: 0;
    margin-bottom: 1.2em;
    page-break-inside: avoid;
}

pre code {
    font-size: inherit;
    font-weight: 400;
    padding: 0;
    background: transparent !important;
    border: none;
    border-radius: 0;
    color: inherit;
    white-space: pre;
}

/* ==================== Blockquotes ==================== */

blockquote {
    margin: 0 0 1em 0;
    padding: 0.2em 1em;
    color: #4b5563;
    border-left: 4px solid #d0d7de;
}

blockquote p {
    margin-bottom: 0.6em;
}

blockquote p:last-child {
    margin-bottom: 0;
}

blockquote code {
    font-style: normal;
}

/* ==================== Lists ==================== */

ul, ol {
    margin-top: 0;
    margin-bottom: 1em;
    padding-left: 2em;
}

ul ul, ol ol, ul ol, ol ul {
    margin-bottom: 0;
    margin-top: 0.4em;
}

li {
    margin-bottom: 0.35em;
    line-height: 1.6;
}

li > p {
    margin-bottom: 0.5em;
}

li > p:last-child {
    margin-bottom: 0;
}

/* Task lists */
li input[type="checkbox"] {
    margin-right: 0.5em;
    margin-left: -0.1em;
    vertical-align: middle;
    position: relative;
    top: -1px;
    width: 14px;
    height: 14px;
    accent-color: #0969da;
}

/* ==================== Tables ==================== */

table {
    border-collapse: collapse;
    margin-top: 0;
    margin-bottom: 1.2em;
    width: 100%;
    page-break-inside: avoid;
}

th, td {
    padding: 0.6em 0.9em;
    text-align: left;
    border: 1px solid #d0d7de;
}

th {
    font-weight: 600;
    font-size: 0.9em;
    color: #374151;
    background-color: #f6f8fa;
}

td {
    color: #1f2937;
}

tbody tr:nth-child(even) {
    background-color: #fbfcfe;
}

/* ==================== Other Elements ==================== */

hr {
    height: 0;
    padding: 0;
    margin: 1.8em 0;
    border: 0;
    border-top: 1px solid #e5e7eb;
    background: transparent;
}

/* Images */
img {
    max-width: 100%;
    height: auto;
    display: block;
    margin: 1.2em auto;
    border-radius: 6px;
    border: 1px solid #e5e7eb;
}

/* Strikethrough */
del {
    color: #6b7280;
    text-decoration: line-through;
}

/* Strong and emphasis */
strong {
    font-weight: 600;
    color: #111827;
}

em {
    font-style: italic;
    color: #374151;
}

/* Definition lists */
dt {
    font-weight: 600;
    margin-top: 1.1em;
    color: #111827;
}

dd {
    margin-left: 1.6em;
    margin-bottom: 0.5em;
    color: #4b5563;
}

/* Footnotes */
.footnote-definition {
    font-size: 0.9rem;
    margin-top: 2em;
    padding-top: 1em;
    border-top: 1px solid #e5e7eb;
    color: #4b5563;
}

/* Keyboard shortcut styling */
kbd {
    font-family: inherit;
    font-size: 0.85em;
    padding: 0.15em 0.35em;
    background-color: #f3f4f6;
    border: 1px solid #d1d5db;
    border-radius: 4px;
    color: #111827;
}

/* ==================== Print Optimizations ==================== */

@media print {
    html {
        font-size: 15px;
    }

    body {
        background: white;
    }

    .markdown-body {
        padding: 40px 48px;
    }

    pre, blockquote, table, img, h1, h2, h3, h4, h5, h6 {
        page-break-inside: avoid;
    }

    h1, h2, h3, h4, h5, h6 {
        page-break-after: avoid;
    }

    p, li {
        orphans: 3;
        widows: 3;
    }

    table {
        border: 1px solid #d0d7de;
    }

    img {
        border: 1px solid #e5e7eb;
    }

    pre {
        border: 1px solid #d0d7de;
    }
}
"#;

/// Styling for documents rendered on a dark background.
pub const DARK_THEME_CSS: &'static str = r#"
@page {
    margin: 0;
    size: auto;
}

*, *::before, *::after {
    box-sizing: border-box;
}

html {
    font-size: 16px;
    -webkit-print-color-adjust: exact;
    print-color-adjust: exact;
    text-rendering: optimizeLegibility;
    -webkit-font-smoothing: antialiased;
    -moz-osx-font-smoothing: grayscale;
}

body {
    font-family: "Inter", -apple-system, BlinkMacSystemFont, "Segoe UI", "Helvetica Neue", Arial, sans-serif,
        "PingFang SC", "Hiragino Sans GB", "Microsoft YaHei",
        "Hiragino Kaku Gothic Pro", "Yu Gothic",
        "Apple SD Gothic Neo", "Malgun Gothic",
        "Apple Color Emoji", "Segoe UI Emoji";
    font-size: 1rem;
    font-weight: 400;
    line-height: 1.6;
    color: #e2e8f0;
    background-color: #0f172a;
    margin: 0;
    padding: 0;
    word-wrap: break-word;
    font-feature-settings: "kern" 1, "liga" 1, "calt" 1;
}

.markdown-body {
    max-width: 100%;
    margin: 0 auto;
    padding: 48px 56px;
}

/* ==================== Typography ==================== */

h1, h2, h3, h4, h5, h6 {
    font-weight: 600;
    line-height: 1.35;
    color: #f8fafc;
    margin-top: 1.8em;
    margin-bottom: 0.6em;
    page-break-after: avoid;
    page-break-inside: avoid;
}

h1:first-child, h2:first-child, h3:first-child,
h4:first-child, h5:first-child, h6:first-child {
    margin-top: 0;
}

h1 {
    font-size: 2.2rem;
    padding-bottom: 0.3em;
    border-bottom: 1px solid #334155;
}

h2 {
    font-size: 1.6rem;
    padding-bottom: 0.2em;
    border-bottom: 1px solid #334155;
}

h3 {
    font-size: 1.3rem;
}

h4 {
    font-size: 1.1rem;
    color: #e2e8f0;
}

h5 {
    font-size: 1rem;
    color: #cbd5e1;
}

h6 {
    font-size: 0.95rem;
    color: #94a3b8;
}

/* Paragraphs */
p {
    margin-top: 0;
    margin-bottom: 1em;
}

/* Links */
a {
    color: #60a5fa;
    text-decoration: none;
    border-bottom: 1px solid rgba(96, 165, 250, 0.25);
}

a:hover {
    border-bottom-color: rgba(96, 165, 250, 0.55);
}

/* ==================== Code ==================== */

code {
    font-family: "JetBrains Mono", "Fira Code", ui-monospace, SFMono-Regular, "SF Mono", Menlo, Monaco, Consolas, monospace;
    font-size: 0.9em;
    font-weight: 500;
    padding: 0.2em 0.4em;
    background-color: #111827;
    border-radius: 4px;
    color: #e2e8f0;
    border: 1px solid #334155;
}

/* Code blocks - syntect generates pre with inline styles */
pre {
    font-family: "JetBrains Mono", "Fira Code", ui-monospace, SFMono-Regular, "SF Mono", Menlo, Monaco, Consolas, monospace;
    font-size: 0.88rem;
    line-height: 1.6;
    padding: 1em 1.2em;
    overflow-x: auto;
    background-color: #111827 !important;
    border-radius: 6px;
    border: 1px solid #334155;
    margin-top: 0;
    margin-bottom: 1.2em;
    page-break-inside: avoid;
}

pre code {
    font-size: inherit;
    font-weight: 400;
    padding: 0;
    background: transparent !important;
    border: none;
    border-radius: 0;
    color: inherit;
    white-space: pre;
}

/* ==================== Blockquotes ==================== */

blockquote {
    margin: 0 0 1em 0;
    padding: 0.2em 1em;
    color: #94a3b8;
    border-left: 4px solid #334155;
}

blockquote p {
    margin-bottom: 0.6em;
}

blockquote p:last-child {
    margin-bottom: 0;
}

blockquote code {
    font-style: normal;
}

/* ==================== Lists ==================== */

ul, ol {
    margin-top: 0;
    margin-bottom: 1em;
    padding-left: 2em;
}

ul ul, ol ol, ul ol, ol ul {
    margin-bottom: 0;
    margin-top: 0.4em;
}

li {
    margin-bottom: 0.35em;
    line-height: 1.6;
}

li > p {
    margin-bottom: 0.5em;
}

li > p:last-child {
    margin-bottom: 0;
}

/* Task lists */
li input[type="checkbox"] {
    margin-right: 0.5em;
    margin-left: -0.1em;
    vertical-align: middle;
    position: relative;
    top: -1px;
    width: 14px;
    height: 14px;
    accent-color: #60a5fa;
}

/* ==================== Tables ==================== */

table {
    border-collapse: collapse;
    margin-top: 0;
    margin-bottom: 1.2em;
    width: 100%;
    page-break-inside: avoid;
}

th, td {
    padding: 0.6em 0.9em;
    text-align: left;
    border: 1px solid #334155;
}

th {
    font-weight: 600;
    font-size: 0.9em;
    color: #cbd5e1;
    background-color: #111827;
}

td {
    color: #e2e8f0;
}

tbody tr:nth-child(even) {
    background-color: #0b1220;
}

/* ==================== Other Elements ==================== */

hr {
    height: 0;
    padding: 0;
    margin: 1.8em 0;
    border: 0;
    border-top: 1px solid #334155;
    background: transparent;
}

/* Images */
img {
    max-width: 100%;
    height: auto;
    display: block;
    margin: 1.2em auto;
    border-radius: 6px;
    border: 1px solid #334155;
}

/* Strikethrough */
del {
    color: #94a3b8;
    text-decoration: line-through;
}

/* Strong and emphasis */
strong {
    font-weight: 600;
    color: #f8fafc;
}

em {
    font-style: italic;
    color: #cbd5e1;
}

/* Definition lists */
dt {
    font-weight: 600;
    margin-top: 1.1em;
    color: #f8fafc;
}

dd {
    margin-left: 1.6em;
    margin-bottom: 0.5em;
    color: #94a3b8;
}

/* Footnotes */
.footnote-definition {
    font-size: 0.9rem;
    margin-top: 2em;
    padding-top: 1em;
    border-top: 1px solid #334155;
    color: #94a3b8;
}

/* Keyboard shortcut styling */
kbd {
    font-family: inherit;
    font-size: 0.85em;
    padding: 0.15em 0.35em;
    background-color: #111827;
    border: 1px solid #475569;
    border-radius: 4px;
    color: #e2e8f0;
}

/* ==================== Print Optimizations ==================== */

@media print {
    html {
        font-size: 15px;
    }

    body {
        background: #0f172a;
    }

    .markdown-body {
        padding: 40px 48px;
    }

    pre, blockquote, table, img, h1, h2, h3, h4, h5, h6 {
        page-break-inside: avoid;
    }

    h1, h2, h3, h4, h5, h6 {
        page-break-after: avoid;
    }

    p, li {
        orphans: 3;
        widows: 3;
    }

    table {
        border: 1px solid #334155;
    }

    img {
        border: 1px solid #334155;
    }

    pre {
        border: 1px solid #334155;
    }
}
"#;

/// Relies on `<str as PartialEq>::eq` from std: two string slices compare
/// equal exactly when they hold the same characters.
pub assume_specification[ <str as PartialEq<str>>::eq ](a: &str, b: &str) -> (r: bool)
    ensures
        r == (a@ == b@),
;

/// Picks the stylesheet for a theme name: `dark` selects the dark
/// stylesheet and anything else the light one.
pub fn get_theme_css(theme: &str) -> (r: &'static str)
    ensures
        theme@ == "dark"@ ==> r@ == DARK_THEME_CSS@,
        theme@ != "dark"@ ==> r@ == LIGHT_THEME_CSS@,
{
    if theme.eq("dark") {
        DARK_THEME_CSS
    } else {
        LIGHT_THEME_CSS
    }
}

/// What one character becomes in HTML text: the five special characters
/// turn into their entities and everything else stands as it is.
pub open spec fn escape_char(c: char) -> Seq<char> {
    if c == '&' {
        "&amp;"@
    } else if c == '<' {
        "&lt;"@
    } else if c == '>' {
        "&gt;"@
    } else if c == '"' {
        "&quot;"@
    } else if c == '\'' {
        "&#39;"@
    } else {
        seq![c]
    }
}

/// A text with every special character escaped, in order.
pub open spec fn escaped(s: Seq<char>) -> Seq<char>
    decreases s.len(),
{
    if s.len() == 0 {
        Seq::empty()
    } else {
        escape_char(s[0]) + escaped(s.drop_first())
    }
}

/// Escapes the HTML special characters of a text.
pub fn html_escape(text: &str) -> (r: String)
    ensures
        r@ == escaped(text@),
{
    let n = text.unicode_len();
    let mut out = String::new();
    let mut i: usize = 0;
    proof {
        assert(text@.skip(0) =~= text@);
        assert(escaped(text@.take(0)) =~= Seq::<char>::empty());
    }
    while i < n
        invariant
            0 <= i <= n,
            n == text@.len(),
            out@ == escaped(text@.take(i as int)),
        decreases n - i,
    {
        let c = text.get_char(i);
        proof {
            assert(text@.take(i as int + 1) =~= text@.take(i as int).push(text@[i as int]));
            lemma_escaped_push(text@.take(i as int), text@[i as int]);
        }
        if c == '&' {
            out.append("&amp;");
        } else if c == '<' {
            out.append("&lt;");
        } else if c == '>' {
            out.append("&gt;");
        } else if c == '"' {
            out.append("&quot;");
        } else if c == '\'' {
            out.append("&#39;");
        } else {
            out.push(c);
            proof {
                assert(out@ =~= escaped(text@.take(i as int)) + seq![c]);
            }
        }
        i = i + 1;
    }
    proof {
        assert(text@.take(n as int) =~= text@);
    }
    out
}

/// Escaping a text and then one more character escapes the whole.
proof fn lemma_escaped_push(s: Seq<char>, c: char)
    ensures
        escaped(s.push(c)) == escaped(s) + escape_char(c),
    decreases s.len(),
{
    if s.len() == 0 {
        assert(s.push(c)[0] == c);
        assert(s.push(c).drop_first() =~= Seq::<char>::empty());
        assert(escaped(Seq::<char>::empty()) + escape_char(c) =~= escape_char(c));
        assert(escaped(s) + escape_char(c) =~= escape_char(c));
    } else {
        assert(s.push(c)[0] == s[0]);
        assert(s.push(c).drop_first() =~= s.drop_first().push(c));
        lemma_escaped_push(s.drop_first(), c);
        assert(escape_char(s[0]) + (escaped(s.drop_first()) + escape_char(c)) =~= (escape_char(
            s[0],
        ) + escaped(s.drop_first())) + escape_char(c));
    }
}

/// Wraps rendered content in the full page: document shell, the given
/// embedded-font rules, the theme's stylesheet, then the content inside
/// the article body.
pub fn generate_styled_html(content: &str, theme: &str, font_css: &str) -> (r: String)
    ensures
        r@ == "<!DOCTYPE html>\n<html>\n<head>\n    <meta charset=\"UTF-8\">\n    <style>\n"@
            + font_css@ + "\n"@ + (if theme@ == "dark"@ {
            DARK_THEME_CSS@
        } else {
            LIGHT_THEME_CSS@
        }) + "\n    </style>\n</head>\n<body>\n    <article class=\"markdown-body\">\n"@
            + content@ + "\n    </article>\n</body>\n</html>"@,
{
    let theme_css = get_theme_css(theme);
    let mut out =
        "<!DOCTYPE html>\n<html>\n<head>\n    <meta charset=\"UTF-8\">\n    <style>\n".to_owned();
    out.append(font_css);
    out.append("\n");
    out.append(theme_css);
    out.append("\n    </style>\n</head>\n<body>\n    <article class=\"markdown-body\">\n");
    out.append(content);
    out.append("\n    </article>\n</body>\n</html>");
    out
}

} // verus!
