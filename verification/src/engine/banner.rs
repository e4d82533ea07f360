//! The "managed by bukagu" banner: one comment line and an empty line on top of a
//! synced file, in the comment syntax of its extension.

use vstd::prelude::*;
use vstd::string::*;

use crate::path::PathBuf;
use crate::text::{self, ascii_lower, lossy_text};

verus! {

/// What every banner begins with, behind the comment marker.
pub const BANNER_MARKER: &'static str = "Managed by bukagu";

/// How an extension writes comments.
#[derive(Debug, Clone, Copy, PartialEq, Eq, Structural)]
pub enum CommentStyle {
    /// `// …`
    Slashes,
    /// `# …`
    Hash,
    /// `-- …`
    Dashes,
    /// `/* … */`
    Stars,
    /// `<!-- … -->`
    Markup,
}

/// What stands before the text of a comment.
pub open spec fn opening(style: CommentStyle) -> Seq<char> {
    match style {
        CommentStyle::Slashes => "// "@,
        CommentStyle::Hash => "# "@,
        CommentStyle::Dashes => "-- "@,
        CommentStyle::Stars => "/* "@,
        CommentStyle::Markup => "<!-- "@,
    }
}

/// What stands after the text of a comment.
pub open spec fn closing(style: CommentStyle) -> Seq<char> {
    match style {
        CommentStyle::Slashes => ""@,
        CommentStyle::Hash => ""@,
        CommentStyle::Dashes => ""@,
        CommentStyle::Stars => " */"@,
        CommentStyle::Markup => " -->"@,
    }
}

/// The comment style of an extension in lowercase, where it has one.
pub open spec fn style_of(ext: Seq<char>) -> Option<CommentStyle> {
    if ext == "js"@ || ext == "jsx"@ || ext == "mjs"@ || ext == "cjs"@ || ext == "ts"@ || ext
        == "tsx"@ || ext == "rs"@ {
        Some(CommentStyle::Slashes)
    } else if ext == "py"@ || ext == "sh"@ || ext == "bash"@ || ext == "zsh"@ || ext == "yaml"@
        || ext == "yml"@ || ext == "toml"@ {
        Some(CommentStyle::Hash)
    } else if ext == "sql"@ || ext == "lua"@ {
        Some(CommentStyle::Dashes)
    } else if ext == "css"@ {
        Some(CommentStyle::Stars)
    } else if ext == "html"@ || ext == "htm"@ || ext == "md"@ || ext == "markdown"@ {
        Some(CommentStyle::Markup)
    } else {
        None
    }
}

/// The comment style of an extension, whatever its case.
pub fn comment_style(ext: &str) -> (res: Option<CommentStyle>)
    ensures
        res == style_of(ascii_lower(ext@)),
{
    let e = text::to_ascii_lower(ext);
    let e = e.as_str();
    if text::same_text(e, "js") || text::same_text(e, "jsx") || text::same_text(e, "mjs")
        || text::same_text(e, "cjs") || text::same_text(e, "ts") || text::same_text(e, "tsx")
        || text::same_text(e, "rs") {
        Some(CommentStyle::Slashes)
    } else if text::same_text(e, "py") || text::same_text(e, "sh") || text::same_text(e, "bash")
        || text::same_text(e, "zsh") || text::same_text(e, "yaml") || text::same_text(e, "yml")
        || text::same_text(e, "toml") {
        Some(CommentStyle::Hash)
    } else if text::same_text(e, "sql") || text::same_text(e, "lua") {
        Some(CommentStyle::Dashes)
    } else if text::same_text(e, "css") {
        Some(CommentStyle::Stars)
    } else if text::same_text(e, "html") || text::same_text(e, "htm") || text::same_text(e, "md")
        || text::same_text(e, "markdown") {
        Some(CommentStyle::Markup)
    } else {
        None
    }
}

/// How the banner of a style begins, up to and with its marker.
pub open spec fn banner_start(style: CommentStyle) -> Seq<char> {
    opening(style) + BANNER_MARKER@
}

/// The banner line for a source file, without its line break.
pub open spec fn banner_line(style: CommentStyle, source: Seq<u8>) -> Seq<char> {
    banner_start(style)
        + " — do not edit this file; it is overwritten on every sync. Edit the source instead: "@
        + lossy_text(source) + closing(style)
}

/// Where the line that holds position `i` ends: at its line break or at the end.
pub open spec fn line_end(t: Seq<char>, i: int) -> int
    decreases t.len() - i,
{
    if i < 0 || i >= t.len() || t[i] == '\n' {
        i
    } else {
        line_end(t, i + 1)
    }
}

/// Where the next line starts, or the end.
pub open spec fn next_line(t: Seq<char>, i: int) -> int {
    if line_end(t, i) < t.len() {
        line_end(t, i) + 1
    } else {
        t.len() as int
    }
}

/// The length of a leading byte-order mark.
pub open spec fn mark_len(t: Seq<char>) -> int {
    if t.len() > 0 && t[0] == '\u{feff}' {
        1
    } else {
        0
    }
}

/// Whether a shebang line opens the text, behind a byte-order mark if there is one.
pub open spec fn has_shebang(t: Seq<char>) -> bool {
    "#!"@.is_prefix_of(t.skip(mark_len(t)))
}

/// Where the part that stays on top ends: a byte-order mark and a shebang line.
pub open spec fn head_end(t: Seq<char>) -> int {
    if has_shebang(t) {
        next_line(t, mark_len(t))
    } else {
        mark_len(t)
    }
}

/// The part that stays on top, with a line break behind a shebang.
pub open spec fn head(t: Seq<char>) -> Seq<char> {
    if has_shebang(t) && line_end(t, mark_len(t)) == t.len() {
        t.push('\n')
    } else {
        t.take(head_end(t))
    }
}

/// `body` without a banner that opens it and the empty line behind that.
pub open spec fn unbannered(style: CommentStyle, body: Seq<char>) -> Seq<char> {
    if banner_start(style).is_prefix_of(body) {
        let rest = body.skip(next_line(body, 0));
        if rest.len() > 0 && rest[0] == '\n' {
            rest.skip(1)
        } else {
            rest
        }
    } else {
        body
    }
}

/// The text `t` of the file `source` with a banner on top, in place of one it had.
pub open spec fn bannered(style: CommentStyle, source: Seq<u8>, t: Seq<char>) -> Seq<char> {
    head(t) + banner_line(style, source) + "\n\n"@ + unbannered(style, t.skip(head_end(t)))
}

fn open_with(style: CommentStyle) -> (res: &'static str)
    ensures
        res@ == opening(style),
{
    match style {
        CommentStyle::Slashes => "// ",
        CommentStyle::Hash => "# ",
        CommentStyle::Dashes => "-- ",
        CommentStyle::Stars => "/* ",
        CommentStyle::Markup => "<!-- ",
    }
}

fn close_with(style: CommentStyle) -> (res: &'static str)
    ensures
        res@ == closing(style),
{
    match style {
        CommentStyle::Slashes => "",
        CommentStyle::Hash => "",
        CommentStyle::Dashes => "",
        CommentStyle::Stars => " */",
        CommentStyle::Markup => " -->",
    }
}

fn line_for(style: CommentStyle, source: &PathBuf) -> (res: String)
    ensures
        res@ == banner_line(style, source@),
{
    let mut s = open_with(style).to_owned();
    s.append(BANNER_MARKER);
    s.append(
        " — do not edit this file; it is overwritten on every sync. Edit the source instead: ",
    );
    s.append(source.display().as_str());
    s.append(close_with(style));
    s
}

proof fn lemma_line_end(t: Seq<char>, i: int)
    requires
        0 <= i <= t.len(),
    ensures
        i <= line_end(t, i) <= t.len(),
        line_end(t, i) < t.len() ==> t[line_end(t, i)] == '\n',
        forall|j: int| i <= j < line_end(t, i) ==> t[j] != '\n',
    decreases t.len() - i,
{
    if i < t.len() && t[i] != '\n' {
        lemma_line_end(t, i + 1);
    }
}

fn find_line_end(t: &Vec<char>, from: usize) -> (res: usize)
    requires
        from <= t@.len(),
    ensures
        res == line_end(t@, from as int),
        from <= res <= t@.len(),
{
    let mut i: usize = from;
    while i < t.len() && t[i] != '\n'
        invariant
            from <= i <= t@.len(),
            line_end(t@, from as int) == line_end(t@, i as int),
        ensures
            from <= i <= t@.len(),
            line_end(t@, from as int) == i,
        decreases t@.len() - i,
    {
        i += 1;
    }
    i
}

fn append_from(out: &mut String, t: &Vec<char>, from: usize, to: usize)
    requires
        from <= to <= t@.len(),
    ensures
        final(out)@ == old(out)@ + t@.subrange(from as int, to as int),
{
    let ghost before = out@;
    assert(before + t@.subrange(from as int, from as int) =~= before);
    for i in from..to
        invariant
            from <= to <= t@.len(),
            out@ == before + t@.subrange(from as int, i as int),
    {
        out.push(t[i]);
        assert(before + t@.subrange(from as int, i + 1) =~= (before + t@.subrange(
            from as int,
            i as int,
        )).push(t@[i as int]));
    }
}

fn opens_at(t: &Vec<char>, at: usize, start: &Vec<char>) -> (res: bool)
    requires
        at <= t@.len(),
    ensures
        res == start@.is_prefix_of(t@.skip(at as int)),
{
    if start.len() > t.len() - at {
        return false;
    }
    let ghost rest = t@.skip(at as int);
    for i in 0..start.len()
        invariant
            at + start@.len() <= t@.len(),
            t.len() == t@.len(),
            rest == t@.skip(at as int),
            forall|j: int| 0 <= j < i ==> start@[j] == rest[j],
    {
        assert(rest[i as int] == t@[at + i]);
        if t[at + i] != start[i] {
            assert(rest.subrange(0, start@.len() as int)[i as int] == rest[i as int]);
            return false;
        }
    }
    assert(rest.subrange(0, start@.len() as int) =~= start@);
    true
}

/// `text`, the contents of the file `source_abs`, with a banner on top. A leading
/// byte-order mark or `#!` line stays above the banner; a banner that `text` has
/// already is replaced.
#[verifier::rlimit(50)]
pub fn with_banner(style: CommentStyle, source_abs: &PathBuf, text: &str) -> (res: String)
    ensures
        res@ == bannered(style, source_abs@, text@),
{
    let t = text::chars_of(text);
    let mark: usize = if t.len() > 0 && t[0] == '\u{feff}' {
        1
    } else {
        0
    };
    let shebang = text::chars_of("#!");
    let mut out = String::new();
    let mut body: usize = mark;
    if opens_at(&t, mark, &shebang) {
        let end = find_line_end(&t, mark);
        append_from(&mut out, &t, 0, end);
        out.push('\n');
        proof {
            lemma_line_end(t@, mark as int);
        }
        body = if end < t.len() {
            end + 1
        } else {
            end
        };
        assert(out@ =~= head(text@));
    } else {
        append_from(&mut out, &t, 0, mark);
        assert(out@ =~= head(text@));
    }
    out.append(line_for(style, source_abs).as_str());
    out.append("\n\n");
    let start = text::chars_of(text::concat(open_with(style), BANNER_MARKER).as_str());
    let ghost below = t@.skip(body as int);
    let mut from: usize = body;
    if opens_at(&t, body, &start) {
        let end = find_line_end(&t, body);
        proof {
            lemma_line_end_skip(t@, body as int, 0);
        }
        from = if end < t.len() {
            end + 1
        } else {
            end
        };
        assert(below.skip(next_line(below, 0)) =~= t@.skip(from as int));
        if from < t.len() && t[from] == '\n' {
            from += 1;
            assert(t@.skip(from - 1).skip(1) =~= t@.skip(from as int));
        }
    }
    append_from(&mut out, &t, from, t.len());
    assert(t@.subrange(from as int, t@.len() as int) =~= unbannered(style, below));
    out
}

proof fn lemma_line_end_skip(t: Seq<char>, at: int, i: int)
    requires
        0 <= at <= at + i <= t.len(),
        0 <= i,
    ensures
        line_end(t, at + i) == at + line_end(t.skip(at), i),
    decreases t.len() - at - i,
{
    if at + i < t.len() {
        assert(t.skip(at)[i] == t[at + i]);
        if t[at + i] != '\n' {
            lemma_line_end_skip(t, at, i + 1);
        }
    }
}

// --- Laws ------------------------------------------------------------------

proof fn lemma_line_end_at(t: Seq<char>, i: int, e: int)
    requires
        0 <= i <= e < t.len(),
        t[e] == '\n',
        forall|j: int| i <= j < e ==> t[j] != '\n',
    ensures
        line_end(t, i) == e,
    decreases e - i,
{
    if i < e {
        lemma_line_end_at(t, i + 1, e);
    }
}

proof fn lemma_one_line(style: CommentStyle, source: Seq<u8>)
    requires
        !lossy_text(source).contains('\n'),
    ensures
        !banner_line(style, source).contains('\n'),
        banner_line(style, source).len() >= 2,
        banner_line(style, source)[0] != '\u{feff}',
        !"#!"@.is_prefix_of(banner_line(style, source)),
{
    reveal_strlit("// ");
    reveal_strlit("# ");
    reveal_strlit("-- ");
    reveal_strlit("/* ");
    reveal_strlit("<!-- ");
    reveal_strlit("");
    reveal_strlit(" */");
    reveal_strlit(" -->");
    reveal_strlit("#!");
    reveal_strlit("Managed by bukagu");
    reveal_strlit(
        " — do not edit this file; it is overwritten on every sync. Edit the source instead: ",
    );
    let l = banner_line(style, source);
    let o = opening(style);
    let m =
        " — do not edit this file; it is overwritten on every sync. Edit the source instead: "@;
    assert(l[0] == o[0]);
    assert(l[1] == o[1]);
    if "#!"@.is_prefix_of(l) {
        assert(l.subrange(0, 2)[0] == l[0] && l.subrange(0, 2)[1] == l[1]);
    }
    if l.contains('\n') {
        let i = choose|i: int| 0 <= i < l.len() && l[i] == '\n';
        let a = o.len() as int;
        let b = a + BANNER_MARKER@.len();
        let c = b + m.len();
        let d = c + lossy_text(source).len();
        if i < a {
            assert(l[i] == o[i]);
        } else if i < b {
            assert(l[i] == BANNER_MARKER@[i - a]);
        } else if i < c {
            assert(l[i] == m[i - b]);
        } else if i < d {
            assert(l[i] == lossy_text(source)[i - c]);
        } else {
            assert(l[i] == closing(style)[i - d]);
        }
    }
}

/// What follows the part that stays on top does not change that part, unless it looks
/// like a byte-order mark or a shebang itself.
proof fn lemma_head_stays(t: Seq<char>, b: Seq<char>)
    requires
        b.len() >= 2,
        b[0] != '\u{feff}',
        !"#!"@.is_prefix_of(b),
    ensures
        head(head(t) + b) == head(t),
        head_end(head(t) + b) == head(t).len(),
{
    reveal_strlit("#!");
    let h = head(t);
    let full = h + b;
    let m = mark_len(t);
    lemma_line_end(t, m);
    if has_shebang(t) {
        let e = line_end(t, m);
        assert(t.skip(m).subrange(0, 2)[0] == t[m] && t.skip(m).subrange(0, 2)[1] == t[m + 1]);
        assert(e >= m + 2) by {
            if e == m {
                assert(t[m] == '#');
            } else if e == m + 1 {
                assert(t[m + 1] == '!');
            }
        }
        assert(h =~= t.take(e).push('\n'));
        assert(full[e] == '\n');
        assert forall|j: int| 0 <= j < e implies full[j] == t[j] by {}
        lemma_line_end_at(full, m, e);
        assert(mark_len(full) == m);
        assert(full.skip(m).subrange(0, 2) =~= t.skip(m).subrange(0, 2));
        assert(head(full) =~= h);
    } else {
        assert(h =~= t.take(m));
        assert(full[m] == b[0]);
        assert(m == 1 ==> full[0] == t[0]);
        assert(mark_len(full) == m);
        if has_shebang(full) {
            assert(full.skip(m) =~= b);
        }
        assert(head(full) =~= h);
    }
}

/// A banner and the empty line behind it are taken away.
proof fn lemma_banner_goes(style: CommentStyle, source: Seq<u8>, u: Seq<char>)
    requires
        !lossy_text(source).contains('\n'),
    ensures
        unbannered(style, banner_line(style, source) + "\n\n"@ + u) == u,
{
    reveal_strlit("\n\n");
    let l = banner_line(style, source);
    let b = l + "\n\n"@ + u;
    let st = banner_start(style);
    lemma_one_line(style, source);
    assert(b.subrange(0, st.len() as int) =~= st);
    assert(b[l.len() as int] == '\n');
    assert forall|j: int| 0 <= j < l.len() implies b[j] != '\n' by {
        assert(b[j] == l[j]);
        assert(l.contains(l[j]));
    }
    lemma_line_end_at(b, 0, l.len() as int);
    let rest = b.skip(l.len() as int + 1);
    assert(rest[0] == '\n');
    assert(rest.skip(1) =~= u);
}

/// Putting a banner on a file that has one replaces it: the result is the same as
/// if the file had had none. (A banner whose source path holds a line break is not
/// one line, and is not recognised.)
pub proof fn law_banner_is_replaced(
    style: CommentStyle,
    source: Seq<u8>,
    earlier: Seq<u8>,
    t: Seq<char>,
)
    requires
        !lossy_text(earlier).contains('\n'),
    ensures
        bannered(style, source, bannered(style, earlier, t)) == bannered(style, source, t),
{
    let h = head(t);
    let l = banner_line(style, earlier);
    let u = unbannered(style, t.skip(head_end(t)));
    let b = l + "\n\n"@ + u;
    let full = bannered(style, earlier, t);
    lemma_one_line(style, earlier);
    assert(full =~= h + b);
    assert(b[0] == l[0]);
    if "#!"@.is_prefix_of(b) {
        reveal_strlit("#!");
        assert(b.subrange(0, 2) =~= l.subrange(0, 2));
    }
    lemma_head_stays(t, b);
    assert(full.skip(head_end(full)) =~= b);
    lemma_banner_goes(style, earlier, u);
}

/// A bannered file is the part that stays on top, then the banner, and it ends with
/// the body.
pub proof fn law_banner_on_top(style: CommentStyle, source: Seq<u8>, t: Seq<char>)
    ensures
        head(t).is_prefix_of(bannered(style, source, t)),
        banner_line(style, source).is_prefix_of(bannered(style, source, t).skip(head(t).len() as int)),
        unbannered(style, t.skip(head_end(t))).is_suffix_of(bannered(style, source, t)),
{
    let full = bannered(style, source, t);
    let h = head(t);
    let l = banner_line(style, source);
    let u = unbannered(style, t.skip(head_end(t)));
    assert(full.subrange(0, h.len() as int) =~= h);
    assert(full.skip(h.len() as int).subrange(0, l.len() as int) =~= l);
    assert(full.subrange(full.len() - u.len(), full.len() as int) =~= u);
}

proof fn lemma_head_is(mark: Seq<char>, bang: Seq<char>, rest: Seq<char>)
    requires
        mark == Seq::<char>::empty() || mark == seq!['\u{feff}'],
        bang.len() == 0 || ("#!"@.is_prefix_of(bang) && bang.last() == '\n'),
        forall|i: int| 0 <= i < bang.len() - 1 ==> bang[i] != '\n',
        mark.len() == 0 && bang.len() == 0 && rest.len() > 0 ==> rest[0] != '\u{feff}',
        bang.len() == 0 ==> !"#!"@.is_prefix_of(rest),
    ensures
        head(mark + bang + rest) == mark + bang,
        head_end(mark + bang + rest) == mark.len() + bang.len(),
{
    reveal_strlit("#!");
    let t = mark + bang + rest;
    let m = mark.len() as int;
    if bang.len() > 0 {
        assert(bang.subrange(0, 2)[0] == bang[0] && bang.subrange(0, 2)[1] == bang[1]);
        assert(t[m] == bang[0] && t[m + 1] == bang[1]);
        assert(mark_len(t) == m);
        assert(t.skip(m).subrange(0, 2) =~= bang.subrange(0, 2));
        let e = m + bang.len() - 1;
        assert(t[e] == '\n');
        assert forall|j: int| m <= j < e implies t[j] != '\n' by {
            assert(t[j] == bang[j - m]);
        }
        lemma_line_end_at(t, m, e);
        assert(t.take(e + 1) =~= mark + bang);
    } else {
        assert(mark_len(t) == m) by {
            if m == 0 && rest.len() > 0 {
                assert(t[0] == rest[0]);
            }
        }
        assert(t.skip(m) =~= rest);
        assert(t.take(m) =~= mark + bang);
    }
}

/// Nothing of a source is lost but a banner. A byte-order mark and a shebang line stay on
/// top; then come the banner, an empty line and all the rest, character for character,
/// where that does not begin with a banner of its own.
pub proof fn law_sources_are_kept_whole(
    style: CommentStyle,
    source: Seq<u8>,
    mark: Seq<char>,
    bang: Seq<char>,
    rest: Seq<char>,
)
    requires
        mark == Seq::<char>::empty() || mark == seq!['\u{feff}'],
        bang.len() == 0 || ("#!"@.is_prefix_of(bang) && bang.last() == '\n'),
        forall|i: int| 0 <= i < bang.len() - 1 ==> bang[i] != '\n',
        mark.len() == 0 && bang.len() == 0 && rest.len() > 0 ==> rest[0] != '\u{feff}',
        bang.len() == 0 ==> !"#!"@.is_prefix_of(rest),
        !(opening(style) + "Managed by bukagu"@).is_prefix_of(rest),
    ensures
        bannered(style, source, mark + bang + rest) == mark + bang + banner_line(style, source)
            + "\n\n"@ + rest,
{
    lemma_head_is(mark, bang, rest);
    let t = mark + bang + rest;
    assert(t.skip(head_end(t)) =~= rest);
}

/// A file that is nothing but a shebang line gets the line break that it lacks, and its
/// banner below.
pub proof fn law_bare_shebangs_stay_on_top(
    style: CommentStyle,
    source: Seq<u8>,
    mark: Seq<char>,
    bang: Seq<char>,
)
    requires
        mark == Seq::<char>::empty() || mark == seq!['\u{feff}'],
        "#!"@.is_prefix_of(bang),
        !bang.contains('\n'),
    ensures
        bannered(style, source, mark + bang) == mark + bang + "\n"@ + banner_line(style, source)
            + "\n\n"@,
{
    reveal_strlit("#!");
    reveal_strlit("\n");
    let t = mark + bang;
    let m = mark.len() as int;
    assert(bang.subrange(0, 2)[0] == bang[0] && bang.subrange(0, 2)[1] == bang[1]);
    assert(t[m] == bang[0] && t[m + 1] == bang[1]);
    assert(mark_len(t) == m);
    assert(t.skip(m) =~= bang);
    lemma_line_end(t, m);
    let e = line_end(t, m);
    if e < t.len() {
        assert(t[e] == '\n');
        assert(bang[e - m] == '\n');
        assert(bang.contains(bang[e - m]));
    }
    assert(t.skip(head_end(t)) =~= Seq::empty());
    assert(opening(style).len() > 0) by {
        lemma_openings();
    }
    assert(banner_start(style).len() > 0);
    assert(!banner_start(style).is_prefix_of(Seq::<char>::empty()));
    assert(head(t) =~= t + "\n"@);
    assert(bannered(style, source, t) =~= t + "\n"@ + banner_line(style, source) + "\n\n"@);
}

proof fn lemma_openings()
    ensures
        forall|style: CommentStyle| #[trigger] opening(style).len() > 0,
{
    reveal_strlit("// ");
    reveal_strlit("# ");
    reveal_strlit("-- ");
    reveal_strlit("/* ");
    reveal_strlit("<!-- ");
}

/// What the banner says: whose the file is, not to edit it, and which file to edit; as a
/// comment of its style.
pub proof fn law_banners_name_the_source(source: Seq<u8>)
    ensures
        ({
            let says =
                "Managed by bukagu — do not edit this file; it is overwritten on every sync. Edit the source instead: "@
                + lossy_text(source);
            &&& banner_line(CommentStyle::Slashes, source) == "// "@ + says
            &&& banner_line(CommentStyle::Hash, source) == "# "@ + says
            &&& banner_line(CommentStyle::Dashes, source) == "-- "@ + says
            &&& banner_line(CommentStyle::Stars, source) == "/* "@ + says + " */"@
            &&& banner_line(CommentStyle::Markup, source) == "<!-- "@ + says + " -->"@
        }),
{
    let whole =
        "Managed by bukagu — do not edit this file; it is overwritten on every sync. Edit the source instead: "@;
    let tail =
        " — do not edit this file; it is overwritten on every sync. Edit the source instead: "@;
    assert(whole =~= BANNER_MARKER@ + tail) by {
        reveal_strlit(
            "Managed by bukagu — do not edit this file; it is overwritten on every sync. Edit the source instead: ",
        );
        reveal_strlit(
            " — do not edit this file; it is overwritten on every sync. Edit the source instead: ",
        );
        reveal_strlit("Managed by bukagu");
    }
    assert(""@ =~= Seq::<char>::empty()) by {
        reveal_strlit("");
    }
    let says = whole + lossy_text(source);
    assert(banner_line(CommentStyle::Slashes, source) =~= "// "@ + says);
    assert(banner_line(CommentStyle::Hash, source) =~= "# "@ + says);
    assert(banner_line(CommentStyle::Dashes, source) =~= "-- "@ + says);
    assert(banner_line(CommentStyle::Stars, source) =~= "/* "@ + says + " */"@);
    assert(banner_line(CommentStyle::Markup, source) =~= "<!-- "@ + says + " -->"@);
}

/// The comment style goes by the type of the target: slashes for JavaScript, TypeScript and
/// Rust, a hash for Python, shell scripts and YAML, dashes for SQL and Lua, and comments
/// that close for CSS, HTML and Markdown.
pub proof fn law_styles_go_by_type(ext: Seq<char>)
    ensures
        ext == "js"@ || ext == "ts"@ || ext == "rs"@ ==> style_of(ext) == Some(
            CommentStyle::Slashes,
        ),
        ext == "py"@ || ext == "sh"@ || ext == "yaml"@ ==> style_of(ext) == Some(
            CommentStyle::Hash,
        ),
        ext == "sql"@ || ext == "lua"@ ==> style_of(ext) == Some(CommentStyle::Dashes),
        ext == "css"@ ==> style_of(ext) == Some(CommentStyle::Stars),
        ext == "html"@ || ext == "md"@ ==> style_of(ext) == Some(CommentStyle::Markup),
        ext.len() == 0 ==> style_of(ext) is None,
{
    reveal_strlit("js");
    reveal_strlit("jsx");
    reveal_strlit("mjs");
    reveal_strlit("cjs");
    reveal_strlit("ts");
    reveal_strlit("tsx");
    reveal_strlit("rs");
    reveal_strlit("py");
    reveal_strlit("sh");
    reveal_strlit("bash");
    reveal_strlit("zsh");
    reveal_strlit("yaml");
    reveal_strlit("yml");
    reveal_strlit("toml");
    reveal_strlit("sql");
    reveal_strlit("lua");
    reveal_strlit("css");
    reveal_strlit("html");
    reveal_strlit("htm");
    reveal_strlit("md");
    reveal_strlit("markdown");
    assert("js"@.len() == 2 && "js"@[0] == 'j' && "js"@[1] == 's');
    assert("jsx"@.len() == 3 && "jsx"@[0] == 'j' && "jsx"@[1] == 's' && "jsx"@[2] == 'x');
    assert("mjs"@.len() == 3 && "mjs"@[0] == 'm' && "mjs"@[1] == 'j' && "mjs"@[2] == 's');
    assert("cjs"@.len() == 3 && "cjs"@[0] == 'c' && "cjs"@[1] == 'j' && "cjs"@[2] == 's');
    assert("ts"@.len() == 2 && "ts"@[0] == 't' && "ts"@[1] == 's');
    assert("tsx"@.len() == 3 && "tsx"@[0] == 't' && "tsx"@[1] == 's' && "tsx"@[2] == 'x');
    assert("rs"@.len() == 2 && "rs"@[0] == 'r' && "rs"@[1] == 's');
    assert("py"@.len() == 2 && "py"@[0] == 'p' && "py"@[1] == 'y');
    assert("sh"@.len() == 2 && "sh"@[0] == 's' && "sh"@[1] == 'h');
    assert("bash"@.len() == 4 && "bash"@[0] == 'b' && "bash"@[1] == 'a' && "bash"@[2] == 's');
    assert("zsh"@.len() == 3 && "zsh"@[0] == 'z' && "zsh"@[1] == 's' && "zsh"@[2] == 'h');
    assert("yaml"@.len() == 4 && "yaml"@[0] == 'y' && "yaml"@[1] == 'a' && "yaml"@[2] == 'm');
    assert("yml"@.len() == 3 && "yml"@[0] == 'y' && "yml"@[1] == 'm' && "yml"@[2] == 'l');
    assert("toml"@.len() == 4 && "toml"@[0] == 't' && "toml"@[1] == 'o' && "toml"@[2] == 'm');
    assert("sql"@.len() == 3 && "sql"@[0] == 's' && "sql"@[1] == 'q' && "sql"@[2] == 'l');
    assert("lua"@.len() == 3 && "lua"@[0] == 'l' && "lua"@[1] == 'u' && "lua"@[2] == 'a');
    assert("css"@.len() == 3 && "css"@[0] == 'c' && "css"@[1] == 's' && "css"@[2] == 's');
    assert("html"@.len() == 4 && "html"@[0] == 'h' && "html"@[1] == 't' && "html"@[2] == 'm');
    assert("htm"@.len() == 3 && "htm"@[0] == 'h' && "htm"@[1] == 't' && "htm"@[2] == 'm');
    assert("md"@.len() == 2 && "md"@[0] == 'm' && "md"@[1] == 'd');
    assert("markdown"@.len() == 8 && "markdown"@[0] == 'm' && "markdown"@[1] == 'a');
}

} // verus!
