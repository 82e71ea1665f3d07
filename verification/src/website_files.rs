//! The status website: addresses of the site's assets in the project's
//! repository, and the page text generated from the hours and date files.
use crate::text::split_lines;
use crate::text::split_nl;
use crate::text::views;
use crate::text::ws_rest;
use crate::text::ws_token;
use crate::text::ws_token_split;
use vstd::prelude::*;
use vstd::string::StrSliceExecFns;
use vstd::string::StringExecFns;

verus! {

/// A file in a GitHub repository and the address built for it.
#[derive(Debug, Clone)]
pub struct Github<'a> {
    pub owner: &'a str,
    pub repo: &'a str,
    pub branch: &'a str,
    pub path: &'a str,
    pub file: &'a str,
    pub url: String,
}

impl<'a> Github<'a> {
    /// A repository file with no address built yet.
    pub fn new(owner: &'a str, repo: &'a str, branch: &'a str, path: &'a str, file: &'a str) -> (g:
        Github<'a>)
        ensures
            g.owner@ == owner@,
            g.repo@ == repo@,
            g.branch@ == branch@,
            g.path@ == path@,
            g.file@ == file@,
            g.url@ == Seq::<char>::empty(),
    {
        Github { owner, repo, branch, path, file, url: String::new() }
    }

    /// The address built so far.
    pub fn get_url(&self) -> (r: String)
        ensures
            r@ == self.url@,
    {
        self.url.clone()
    }

    /// Builds the address of the raw contents of the file.
    pub fn build_url(&mut self)
        ensures
            final(self).owner@ == old(self).owner@,
            final(self).repo@ == old(self).repo@,
            final(self).branch@ == old(self).branch@,
            final(self).path@ == old(self).path@,
            final(self).file@ == old(self).file@,
            final(self).url@ == "https://raw.githubusercontent.com/"@ + old(self).owner@ + "/"@
                + old(self).repo@ + "/refs/heads/"@ + old(self).branch@ + "/"@ + old(self).path@
                + "/"@ + old(self).file@,
    {
        let mut url = String::from_str("https://raw.githubusercontent.com/");
        url.append(self.owner);
        url.append("/");
        url.append(self.repo);
        url.append("/refs/heads/");
        url.append(self.branch);
        url.append("/");
        url.append(self.path);
        url.append("/");
        url.append(self.file);
        proof {
            assert(url@ =~= "https://raw.githubusercontent.com/"@ + self.owner@ + "/"@ + self.repo@
                + "/refs/heads/"@ + self.branch@ + "/"@ + self.path@ + "/"@ + self.file@);
        }
        self.url = url;
    }

    /// Builds the address of the blob of the file, for an image.
    pub fn build_image_url(&mut self)
        ensures
            final(self).owner@ == old(self).owner@,
            final(self).repo@ == old(self).repo@,
            final(self).branch@ == old(self).branch@,
            final(self).path@ == old(self).path@,
            final(self).file@ == old(self).file@,
            final(self).url@ == "https://github.com/"@ + old(self).owner@ + "/"@ + old(self).repo@
                + "/blob/"@ + old(self).branch@ + "/"@ + old(self).path@ + "/"@ + old(self).file@,
    {
        let mut url = String::from_str("https://github.com/");
        url.append(self.owner);
        url.append("/");
        url.append(self.repo);
        url.append("/blob/");
        url.append(self.branch);
        url.append("/");
        url.append(self.path);
        url.append("/");
        url.append(self.file);
        proof {
            assert(url@ =~= "https://github.com/"@ + self.owner@ + "/"@ + self.repo@ + "/blob/"@
                + self.branch@ + "/"@ + self.path@ + "/"@ + self.file@);
        }
        self.url = url;
    }
}

/// The lines of a file's text, with the segment after the last newline
/// dropped, as the page generator reads both files.
pub open spec fn popped_lines(contents: Seq<char>) -> Seq<Seq<char>> {
    split_nl(contents).drop_last()
}

/// Whether the hours file carries what the page's heading needs: at least
/// one line, with at least three whitespace-separated tokens on the first.
pub open spec fn heading_ok(hours: Seq<char>) -> bool {
    popped_lines(hours).len() > 0 && ws_token(ws_rest(ws_rest(popped_lines(hours)[0]))).len() > 0
}

/// The page's main heading, built from the first three tokens of the first
/// hours line.
pub open spec fn heading_spec(l: Seq<char>) -> Seq<char> {
    ws_token(l) + seq![' '] + ws_token(ws_rest(l)) + seq!['<', 'b', 'r', '>'] + ws_token(
        ws_rest(ws_rest(l)),
    ) + seq![' ', 'T', 'r', 'a', 'c', 'k', 'e', 'r']
}

/// The dates shown on the page: the most recent first, at most seven.
pub open spec fn dates_shown_spec(dates: Seq<char>) -> Seq<Seq<char>> {
    let dl = popped_lines(dates).reverse();
    if dl.len() >= 7 {
        dl.take(7)
    } else {
        dl
    }
}

/// The text pieces of the status page, selected from the two files.
pub struct PageFragments {
    pub heading: String,
    pub hours_lines: Vec<String>,
    pub dates_shown: Vec<String>,
}

/// Selects the text pieces of the page from the hours and date file texts,
/// exactly as they are shown: the heading from the first three tokens of
/// the first hours line, the remaining hours lines, and the last up to
/// seven date lines, most recent first. Yields nothing when the hours text
/// has no line before its last newline, or fewer than three tokens on the
/// first one.
pub fn page_fragments(hours_content: &str, date_content: &str) -> (r: Option<PageFragments>)
    ensures
        r is Some <==> heading_ok(hours_content@),
        r matches Some(f) ==> f.heading@ == heading_spec(popped_lines(hours_content@)[0])
            && views(f.hours_lines@) == popped_lines(hours_content@).drop_first() && views(
            f.dates_shown@,
        ) == dates_shown_spec(date_content@),
{
    let mut hl = split_lines(hours_content);
    hl.pop();
    proof {
        assert(views(hl@) =~= popped_lines(hours_content@));
    }
    if hl.len() == 0 {
        return None;
    }
    let (t0, r1) = ws_token_split(hl[0].as_str());
    let (t1, r2) = ws_token_split(r1);
    let (t2, _r3) = ws_token_split(r2);
    if t2.unicode_len() == 0 {
        return None;
    }
    let mut heading = String::new();
    heading.append(t0);
    heading.append(" ");
    heading.append(t1);
    heading.append("<br>");
    heading.append(t2);
    heading.append(" Tracker");
    proof {
        reveal_strlit(" ");
        reveal_strlit("<br>");
        reveal_strlit(" Tracker");
        assert(" "@ =~= seq![' ']);
        assert("<br>"@ =~= seq!['<', 'b', 'r', '>']);
        assert(" Tracker"@ =~= seq![' ', 'T', 'r', 'a', 'c', 'k', 'e', 'r']);
        assert(heading@ =~= heading_spec(popped_lines(hours_content@)[0]));
    }
    hl.remove(0);
    proof {
        assert(views(hl@) =~= popped_lines(hours_content@).drop_first());
    }
    let mut dl = split_lines(date_content);
    dl.pop();
    proof {
        assert(views(dl@) =~= popped_lines(date_content@));
    }
    let limit: usize = if dl.len() >= 7 {
        7
    } else {
        dl.len()
    };
    let mut shown: Vec<String> = Vec::new();
    let mut i: usize = 0;
    while i < limit
        invariant
            i <= limit,
            limit <= dl@.len(),
            limit == (if dl@.len() >= 7 {
                7int
            } else {
                dl@.len() as int
            }),
            views(shown@) =~= views(dl@).reverse().take(i as int),
        decreases limit - i,
    {
        shown.push(dl[dl.len() - 1 - i].clone());
        proof {
            assert(views(dl@).reverse()[i as int] == views(dl@)[dl@.len() - 1 - i as int]);
            assert(views(dl@).reverse().take(i as int + 1) =~= views(dl@).reverse().take(
                i as int,
            ).push(views(dl@).reverse()[i as int]));
            assert(views(shown@) =~= views(dl@).reverse().take(i as int + 1));
        }
        i = i + 1;
    }
    proof {
        assert(views(shown@) =~= dates_shown_spec(date_content@));
    }
    Some(PageFragments { heading, hours_lines: hl, dates_shown: shown })
}

/// The pattern occurs in `s` at position `i`.
pub open spec fn match_at(s: Seq<char>, pat: Seq<char>, i: int) -> bool {
    0 <= i && i + pat.len() <= s.len() && s.subrange(i, i + pat.len()) == pat
}

/// Whether the pattern occurs at position `i`, compared character by
/// character.
fn match_check(s: &str, pat: &str, i: usize) -> (r: bool)
    requires
        i + pat@.len() <= s@.len(),
    ensures
        r == match_at(s@, pat@, i as int),
{
    let n: usize = s.unicode_len();
    let m: usize = pat.unicode_len();
    let mut k: usize = 0;
    while k < m
        invariant
            k <= m,
            m == pat@.len(),
            n == s@.len(),
            i + m <= n,
            forall|w: int| 0 <= w < k ==> s@[i + w] == pat@[w],
        decreases m - k,
    {
        if s.get_char(i + k) != pat.get_char(k) {
            proof {
                if match_at(s@, pat@, i as int) {
                    assert(s@.subrange(i as int, i as int + m as int)[k as int] == pat@[k as int]);
                }
            }
            return false;
        }
        k = k + 1;
    }
    proof {
        assert(s@.subrange(i as int, i as int + m as int) =~= pat@);
    }
    true
}

/// The first position where the pattern occurs in `s`.
fn find_sub(s: &str, pat: &str) -> (r: Option<usize>)
    ensures
        r matches Some(i) ==> match_at(s@, pat@, i as int) && (forall|j: int|
            0 <= j < i ==> !match_at(s@, pat@, j)),
        r is None ==> forall|j: int| !match_at(s@, pat@, j),
{
    let n: usize = s.unicode_len();
    let m: usize = pat.unicode_len();
    if m > n {
        return None;
    }
    if m == 0 {
        proof {
            assert(s@.subrange(0, 0) =~= pat@);
        }
        return Some(0);
    }
    let mut i: usize = 0;
    while i <= n - m
        invariant
            1 <= m <= n,
            n == s@.len(),
            m == pat@.len(),
            i <= n - m + 1,
            forall|j: int| 0 <= j < i ==> !match_at(s@, pat@, j),
        decreases n - m + 1 - i,
    {
        if match_check(s, pat, i) {
            return Some(i);
        }
        i = i + 1;
    }
    None
}

/// `s` with the first occurrence of the pattern replaced, and `s` itself
/// when the pattern does not occur.
fn replace_first(s: &str, pat: &str, sub: &str) -> (r: String)
    ensures
        (forall|j: int| !match_at(s@, pat@, j)) ==> r@ == s@,
        forall|i: int|
            match_at(s@, pat@, i) && (forall|j: int| 0 <= j < i ==> !match_at(s@, pat@, j))
                ==> r@ == s@.take(i) + sub@ + s@.skip(i + pat@.len()),
{
    match find_sub(s, pat) {
        Some(i) => {
            let n: usize = s.unicode_len();
            let m: usize = pat.unicode_len();
            let head = s.substring_char(0, i);
            let tail = s.substring_char(i + m, n);
            let mut out = head.to_owned();
            out.append(sub);
            out.append(tail);
            proof {
                assert(out@ =~= s@.take(i as int) + sub@ + s@.skip(i as int + pat@.len()));
                assert forall|i2: int|
                    match_at(s@, pat@, i2) && (forall|j: int|
                        0 <= j < i2 ==> !match_at(s@, pat@, j)) implies r_matches_here(
                    out@,
                    s@,
                    pat@,
                    sub@,
                    i2,
                ) by {
                    assert(!(i2 < i));
                    assert(!(i < i2));
                    assert(i2 == i);
                }
            }
            out
        },
        None => s.to_owned(),
    }
}

/// The replacement result claimed for the first occurrence at `i`.
pub open spec fn r_matches_here(
    out: Seq<char>,
    s: Seq<char>,
    pat: Seq<char>,
    sub: Seq<char>,
    i: int,
) -> bool {
    out == s.take(i) + sub + s.skip(i + pat.len())
}

#[verifier::external_type_specification]
#[verifier::external_body]
pub struct ExHtmlPage(build_html::HtmlPage);

#[verifier::external_type_specification]
#[verifier::external_body]
pub struct ExContainer(build_html::Container);

#[verifier::external_type_specification]
#[verifier::external_body]
pub struct ExHtmlElement(build_html::HtmlElement);

/// The kinds of page container the status page uses.
pub enum ContainerKind {
    Div,
    Header,
    Nav,
    Main,
    Footer,
}

/// Relies on build_html's `HtmlPage::new`: an empty page.
#[verifier::external_body]
fn page_new() -> build_html::HtmlPage {
    build_html::HtmlPage::new()
}

/// Relies on build_html's `HtmlPage::with_title`.
#[verifier::external_body]
fn page_with_title(p: build_html::HtmlPage, t: &str) -> build_html::HtmlPage {
    p.with_title(t)
}

/// Relies on build_html's `HtmlPage::with_meta`.
#[verifier::external_body]
fn page_with_meta(p: build_html::HtmlPage, pairs: Vec<(&str, &str)>) -> build_html::HtmlPage {
    p.with_meta(pairs)
}

/// Relies on build_html's `HtmlPage::with_head_link`.
#[verifier::external_body]
fn page_with_head_link(p: build_html::HtmlPage, href: &str, rel: &str) -> build_html::HtmlPage {
    p.with_head_link(href, rel)
}

/// Relies on build_html's `HtmlPage::with_head_link_attr`.
#[verifier::external_body]
fn page_with_head_link_attr(
    p: build_html::HtmlPage,
    href: &str,
    rel: &str,
    attrs: Vec<(&str, &str)>,
) -> build_html::HtmlPage {
    p.with_head_link_attr(href, rel, attrs)
}

/// Relies on build_html's `HtmlPage::with_script_link`.
#[verifier::external_body]
fn page_with_script_link(p: build_html::HtmlPage, src: &str) -> build_html::HtmlPage {
    p.with_script_link(src)
}

/// Relies on build_html's `HtmlContainer::add_container` for `HtmlPage`.
#[verifier::external_body]
fn page_add_container(p: &mut build_html::HtmlPage, c: build_html::Container) {
    build_html::HtmlContainer::add_container(p, c);
}

/// Relies on build_html's `Html::to_html_string` for `HtmlPage`.
#[verifier::external_body]
fn page_html_string(p: &build_html::HtmlPage) -> String {
    build_html::Html::to_html_string(p)
}

/// Relies on build_html's `Container::new`, one arm per container kind.
#[verifier::external_body]
fn container_new(k: &ContainerKind) -> build_html::Container {
    match k {
        ContainerKind::Div => build_html::Container::new(build_html::ContainerType::Div),
        ContainerKind::Header => build_html::Container::new(build_html::ContainerType::Header),
        ContainerKind::Nav => build_html::Container::new(build_html::ContainerType::Nav),
        ContainerKind::Main => build_html::Container::new(build_html::ContainerType::Main),
        ContainerKind::Footer => build_html::Container::new(build_html::ContainerType::Footer),
    }
}

/// Relies on build_html's `Container::with_attributes`.
#[verifier::external_body]
fn container_with_attributes(
    c: build_html::Container,
    attrs: Vec<(&str, &str)>,
) -> build_html::Container {
    c.with_attributes(attrs)
}

/// Relies on build_html's `HtmlContainer::with_raw` for `Container`.
#[verifier::external_body]
fn container_with_raw(c: build_html::Container, content: &str) -> build_html::Container {
    build_html::HtmlContainer::with_raw(c, content)
}

/// Relies on build_html's `HtmlContainer::with_header_attr` for
/// `Container`; it aborts for a heading level outside one through six.
#[verifier::external_body]
fn container_with_header_attr(
    c: build_html::Container,
    level: u8,
    text: &str,
    attrs: Vec<(&str, &str)>,
) -> build_html::Container
    requires
        1 <= level <= 6,
{
    build_html::HtmlContainer::with_header_attr(c, level, text, attrs)
}

/// Relies on build_html's `HtmlContainer::with_container` for `Container`.
#[verifier::external_body]
fn container_with_container(
    c: build_html::Container,
    inner: build_html::Container,
) -> build_html::Container {
    build_html::HtmlContainer::with_container(c, inner)
}

/// Relies on build_html's `HtmlContainer::with_link` for `Container`.
#[verifier::external_body]
fn container_with_link(c: build_html::Container, href: &str, text: &str) -> build_html::Container {
    build_html::HtmlContainer::with_link(c, href, text)
}

/// Relies on build_html's `HtmlContainer::with_link_attr` for `Container`.
#[verifier::external_body]
fn container_with_link_attr(
    c: build_html::Container,
    href: &str,
    text: &str,
    attrs: Vec<(&str, &str)>,
) -> build_html::Container {
    build_html::HtmlContainer::with_link_attr(c, href, text, attrs)
}

/// Relies on build_html's `HtmlContainer::with_paragraph` for `Container`.
#[verifier::external_body]
fn container_with_paragraph(c: build_html::Container, text: &str) -> build_html::Container {
    build_html::HtmlContainer::with_paragraph(c, text)
}

/// Relies on build_html's `HtmlContainer::with_html` for `Container`, with
/// an element inside.
#[verifier::external_body]
fn container_with_element(
    c: build_html::Container,
    e: build_html::HtmlElement,
) -> build_html::Container {
    build_html::HtmlContainer::with_html(c, e)
}

/// Relies on build_html's `HtmlElement::new` for a division element.
#[verifier::external_body]
fn element_div() -> build_html::HtmlElement {
    build_html::HtmlElement::new(build_html::HtmlTag::Div)
}

/// Relies on build_html's `HtmlElement::with_attribute`.
#[verifier::external_body]
fn element_with_attribute(
    e: build_html::HtmlElement,
    k: &str,
    v: &str,
) -> build_html::HtmlElement {
    e.with_attribute(k, v)
}

/// Relies on build_html's `HtmlContainer::with_container` for `HtmlElement`.
#[verifier::external_body]
fn element_with_container(
    e: build_html::HtmlElement,
    c: build_html::Container,
) -> build_html::HtmlElement {
    build_html::HtmlContainer::with_container(e, c)
}

/// Relies on build_html's `HtmlContainer::add_paragraph` for `HtmlElement`.
#[verifier::external_body]
fn element_add_paragraph(e: &mut build_html::HtmlElement, text: &str) {
    build_html::HtmlContainer::add_paragraph(e, text);
}

/// Relies on build_html's `HtmlContainer::with_header` for `HtmlElement`;
/// it aborts for a heading level outside one through six.
#[verifier::external_body]
fn element_with_header(e: build_html::HtmlElement, level: u8, text: &str) -> (r:
    build_html::HtmlElement)
    requires
        1 <= level <= 6,
{
    build_html::HtmlContainer::with_header(e, level, text)
}

/// Relies on build_html's `HtmlContainer::with_html` for `HtmlElement`, with
/// another element inside.
#[verifier::external_body]
fn element_with_element(
    e: build_html::HtmlElement,
    inner: build_html::HtmlElement,
) -> build_html::HtmlElement {
    build_html::HtmlContainer::with_html(e, inner)
}

/// Generates the status page from the hours and date file texts: the
/// verified fragment selection feeds the build_html page builder, and the
/// body tag receives the page's style classes. Yields nothing exactly when
/// the heading cannot be built from the hours text.
pub fn generate_page(hours_content: &str, date_content: &str) -> (r: Option<String>)
    ensures
        r is Some <==> heading_ok(hours_content@),
{
    let frags = match page_fragments(hours_content, date_content) {
        Some(f) => f,
        None => {
            return None;
        },
    };
    let mut page = page_new();
    page = page_with_title(page, "Rocket League Hours Tracker");
    let mut meta_charset: Vec<(&str, &str)> = Vec::new();
    meta_charset.push(("charset", "UTF-8"));
    page = page_with_meta(page, meta_charset);
    let mut meta_viewport: Vec<(&str, &str)> = Vec::new();
    meta_viewport.push(("name", "viewport"));
    meta_viewport.push(("content", "width=device-width, initial-scale=1.0"));
    page = page_with_meta(page, meta_viewport);
    page = page_with_head_link(page, "../css/main.css", "stylesheet");
    page = page_with_head_link(page, "../css/home.css", "stylesheet");
    page = page_with_head_link(page, "https://fonts.googleapis.com", "preconnect");
    let mut crossorigin: Vec<(&str, &str)> = Vec::new();
    crossorigin.push(("crossorigin", ""));
    page = page_with_head_link_attr(page, "https://fonts.gstatic.com", "preconnect", crossorigin);
    page = page_with_head_link(
        page,
        "https://fonts.googleapis.com/css2?family=Bebas+Neue&display=swap",
        "stylesheet",
    );
    page = page_with_head_link(
        page,
        "https://fonts.googleapis.com/css2?family=Bebas+Neue&family=Oswald:wght@200..700&display=swap",
        "stylesheet",
    );
    page = page_with_script_link(page, "../js/animations.js");

    let mut animation_attrs: Vec<(&str, &str)> = Vec::new();
    animation_attrs.push(("class", "animation-div adaptive"));
    let animation_div = container_with_raw(
        container_with_attributes(container_new(&ContainerKind::Div), animation_attrs),
        "",
    );
    page_add_container(&mut page, animation_div);

    let mut header_attrs: Vec<(&str, &str)> = Vec::new();
    header_attrs.push(("class", "header"));
    let mut title_attrs: Vec<(&str, &str)> = Vec::new();
    title_attrs.push(("class", "main-title bebas-neue-regular"));
    let header = container_with_container(
        container_with_attributes(container_new(&ContainerKind::Header), header_attrs),
        container_with_header_attr(
            container_new(&ContainerKind::Div),
            1,
            frags.heading.as_str(),
            title_attrs,
        ),
    );
    page_add_container(&mut page, header);

    let mut hours_nav_attrs: Vec<(&str, &str)> = Vec::new();
    hours_nav_attrs.push(("class", "your-hours-div nav-div"));
    let mut dates_nav_attrs: Vec<(&str, &str)> = Vec::new();
    dates_nav_attrs.push(("class", "date-and-times-div nav-div"));
    let nav_container = element_with_container(
        element_with_container(
            element_with_attribute(element_div(), "class", "nav-container flex-column"),
            container_with_link(
                container_with_attributes(container_new(&ContainerKind::Div), hours_nav_attrs),
                "#hours",
                "Your Hours",
            ),
        ),
        container_with_link(
            container_with_attributes(container_new(&ContainerKind::Div), dates_nav_attrs),
            "#dates",
            "Date And Times",
        ),
    );
    let mut nav_attrs: Vec<(&str, &str)> = Vec::new();
    nav_attrs.push(("class", "nav oswald-font-500"));
    let nav = container_with_element(
        container_with_attributes(container_new(&ContainerKind::Nav), nav_attrs),
        nav_container,
    );
    page_add_container(&mut page, nav);

    let mut hours_div = element_with_attribute(
        element_div(),
        "class",
        "hours-div flex-column adaptive",
    );
    let mut dates_div = element_with_attribute(
        element_div(),
        "class",
        "dates-div flex-column flex-align-justify-center adaptive",
    );
    let mut i: usize = 0;
    while i < frags.hours_lines.len()
        decreases frags.hours_lines.len() - i,
    {
        element_add_paragraph(&mut hours_div, frags.hours_lines[i].as_str());
        i = i + 1;
    }
    let mut j: usize = 0;
    while j < frags.dates_shown.len()
        decreases frags.dates_shown.len() - j,
    {
        element_add_paragraph(&mut dates_div, frags.dates_shown[j].as_str());
        j = j + 1;
    }

    let hours_div_container = element_with_element(
        element_with_header(
            element_with_attribute(
                element_with_attribute(element_div(), "id", "hours"),
                "class",
                "hours-div-container color flex-column",
            ),
            2,
            "Your Hours Played",
        ),
        hours_div,
    );
    let dates_div_container = element_with_element(
        element_with_header(
            element_with_attribute(
                element_with_attribute(element_div(), "id", "dates"),
                "class",
                "dates-div-container color flex-column",
            ),
            2,
            "Your time played<br>in the last 7 sessions",
        ),
        dates_div,
    );
    let mut main_attrs: Vec<(&str, &str)> = Vec::new();
    main_attrs.push(("class", "main flex-column color oswald-font-500"));
    let main_section = container_with_element(
        container_with_element(
            container_with_attributes(container_new(&ContainerKind::Main), main_attrs),
            hours_div_container,
        ),
        dates_div_container,
    );
    page_add_container(&mut page, main_section);

    let mut footer_attrs: Vec<(&str, &str)> = Vec::new();
    footer_attrs.push(("class", "footer flex-row oswald-font-700"));
    let mut blank_target: Vec<(&str, &str)> = Vec::new();
    blank_target.push(("target", "_blank"));
    let footer = container_with_link_attr(
        container_with_paragraph(
            container_with_attributes(container_new(&ContainerKind::Footer), footer_attrs),
            "&copy; OneilNvM 2024 ",
        ),
        "https://github.com/OneilNvM/rl-hours-tracker",
        "Rocket League Hours Tracker Github",
        blank_target,
    );
    page_add_container(&mut page, footer);

    let html = page_html_string(&page);
    Some(replace_first(html.as_str(), "<body>", "<body class=\"body adaptive\">"))
}

} // verus!
