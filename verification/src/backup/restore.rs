//! Restoring a backup: which identity, which archive, and where it may go.

use vstd::prelude::*;
use vstd::string::*;

use crate::backup::crypto::{
    identity_of, law_sealed_archives_open, opened, seals, Identity, Stage,
};
use crate::backup::{archives_in, DirItem};
use crate::path::{
    components, is_sorted_form, lemma_key_order, overlap, path_bytes, path_order, sort_paths, Order,
    PathBuf,
};
use crate::resolve::Place;
use crate::text::{self, ascii_lower, lossy_text, trimmed};

verus! {

// --- Identity --------------------------------------------------------------

/// Where an identity comes from.
#[derive(Debug, PartialEq, Eq)]
pub enum IdentitySource {
    /// The text itself.
    Literal(String),
    /// The text of a key file.
    File(String),
}

/// Tell a literal identity from `@path`, which names a key file.
pub fn identity_source(arg: &str) -> (res: IdentitySource)
    ensures
        if arg@.len() > 0 && arg@[0] == '@' {
            res matches IdentitySource::File(path) && path@ == arg@.skip(1)
        } else {
            res matches IdentitySource::Literal(t) && t@ == arg@
        },
{
    if arg.unicode_len() > 0 && arg.get_char(0) == '@' {
        IdentitySource::File(text::skip_chars(arg, 1))
    } else {
        IdentitySource::Literal(arg.to_owned())
    }
}

/// The lines of a text, trimmed.
pub open spec fn trimmed_lines(t: Seq<char>) -> Seq<Seq<char>>
    decreases t.len(),
    via trimmed_lines_decreases
{
    let e = break_at(t, 0);
    if e >= t.len() {
        seq![trimmed(t)]
    } else {
        seq![trimmed(t.take(e))] + trimmed_lines(t.skip(e + 1))
    }
}

#[via_fn]
proof fn trimmed_lines_decreases(t: Seq<char>) {
    lemma_break_at(t, 0);
}

/// The position of the next line break from `i` on, or the end.
pub open spec fn break_at(t: Seq<char>, i: int) -> int
    decreases t.len() - i,
{
    if i < 0 || i >= t.len() || t[i] == '\n' {
        i
    } else {
        break_at(t, i + 1)
    }
}

proof fn lemma_break_at(t: Seq<char>, i: int)
    requires
        0 <= i <= t.len(),
    ensures
        i <= break_at(t, i) <= t.len(),
    decreases t.len() - i,
{
    if i < t.len() && t[i] != '\n' {
        lemma_break_at(t, i + 1);
    }
}

/// The first line that satisfies `p`.
pub open spec fn first_line(lines: Seq<Seq<char>>, p: spec_fn(Seq<char>) -> bool) -> Option<
    Seq<char>,
>
    decreases lines.len(),
{
    if lines.len() == 0 {
        None
    } else if p(lines[0]) {
        Some(lines[0])
    } else {
        first_line(lines.drop_first(), p)
    }
}

/// Whether a line is a secret key, by how it begins.
pub open spec fn is_secret_line(l: Seq<char>) -> bool {
    "age-secret-key-"@.is_prefix_of(ascii_lower(l))
}

/// Whether a line is neither blank nor a comment.
pub open spec fn is_plain_line(l: Seq<char>) -> bool {
    l.len() > 0 && l[0] != '#'
}

/// The line of a text that is read as the identity: the first that begins like a
/// secret key, or else the first that is neither blank nor a comment.
pub open spec fn key_line(t: Seq<char>) -> Seq<char> {
    match first_line(trimmed_lines(t), |l: Seq<char>| is_secret_line(l)) {
        Some(l) => l,
        None => match first_line(trimmed_lines(t), |l: Seq<char>| is_plain_line(l)) {
            Some(l) => l,
            None => ""@,
        },
    }
}

/// The texts of a list.
pub open spec fn texts(s: Seq<String>) -> Seq<Seq<char>> {
    s.map_values(|t: String| t@)
}

fn split_lines(t: &str) -> (res: Vec<String>)
    ensures
        texts(res@) == trimmed_lines(t@),
{
    let chars = text::chars_of(t);
    let mut out: Vec<String> = Vec::new();
    let mut line: Vec<char> = Vec::new();
    let mut start: usize = 0;
    assert(texts(out@) =~= Seq::empty());
    assert(Seq::<Seq<char>>::empty() + trimmed_lines(t@.skip(0)) =~= trimmed_lines(t@)) by {
        assert(t@.skip(0) =~= t@);
    }
    assert(t@.subrange(0, 0) =~= Seq::empty());
    for i in 0..chars.len()
        invariant
            chars@ == t@,
            start <= i,
            line@ == t@.subrange(start as int, i as int),
            forall|k: int| start <= k < i ==> t@[k] != '\n',
            texts(out@) + trimmed_lines(t@.skip(start as int)) == trimmed_lines(t@),
    {
        if chars[i] == '\n' {
            let one = text::trim(text::string_of(&line).as_str());
            proof {
                let rest = t@.skip(start as int);
                lemma_break_found(rest, 0, i - start);
                assert(rest.take(i - start) =~= line@);
                assert(rest.skip(i - start + 1) =~= t@.skip(i + 1));
                let before = texts(out@);
                assert(texts(out@.push(one)) =~= before.push(one@));
                assert(before.push(one@) + trimmed_lines(t@.skip(i + 1)) =~= before + (seq![one@]
                    + trimmed_lines(t@.skip(i + 1))));
            }
            out.push(one);
            line = Vec::new();
            start = i + 1;
            assert(line@ =~= t@.subrange(start as int, i + 1));
        } else {
            line.push(chars[i]);
            assert(line@ =~= t@.subrange(start as int, i + 1));
        }
    }
    let one = text::trim(text::string_of(&line).as_str());
    proof {
        let rest = t@.skip(start as int);
        lemma_break_none(rest, 0);
        assert(rest =~= line@);
        let before = texts(out@);
        assert(texts(out@.push(one)) =~= before.push(one@));
        assert(before.push(one@) =~= before + seq![one@]);
    }
    out.push(one);
    out
}

proof fn lemma_break_found(t: Seq<char>, i: int, e: int)
    requires
        0 <= i <= e < t.len(),
        t[e] == '\n',
        forall|k: int| i <= k < e ==> t[k] != '\n',
    ensures
        break_at(t, i) == e,
    decreases e - i,
{
    if i < e {
        lemma_break_found(t, i + 1, e);
    }
}

proof fn lemma_break_none(t: Seq<char>, i: int)
    requires
        0 <= i <= t.len(),
        forall|k: int| i <= k < t.len() ==> t[k] != '\n',
    ensures
        break_at(t, i) == t.len(),
    decreases t.len() - i,
{
    if i < t.len() {
        lemma_break_none(t, i + 1);
    }
}

fn find_line(lines: &Vec<String>, secret: bool) -> (res: Option<String>)
    ensures
        ({
            let wanted = if secret {
                first_line(texts(lines@), |l: Seq<char>| is_secret_line(l))
            } else {
                first_line(texts(lines@), |l: Seq<char>| is_plain_line(l))
            };
            match res {
                Some(l) => wanted == Some(l@),
                None => wanted is None,
            }
        }),
{
    let ghost all = texts(lines@);
    let ghost p = |l: Seq<char>| is_secret_line(l);
    let ghost q = |l: Seq<char>| is_plain_line(l);
    assert(all.skip(0) =~= all);
    for i in 0..lines.len()
        invariant
            all == texts(lines@),
            p == (|l: Seq<char>| is_secret_line(l)),
            q == (|l: Seq<char>| is_plain_line(l)),
            first_line(all, p) == first_line(all.skip(i as int), p) || !secret,
            first_line(all, q) == first_line(all.skip(i as int), q) || secret,
    {
        let line = lines[i].as_str();
        let hit = if secret {
            text::starts_with(text::to_ascii_lower(line).as_str(), "age-secret-key-")
        } else {
            line.unicode_len() > 0 && line.get_char(0) != '#'
        };
        assert(all.skip(i as int)[0] == line@);
        assert(all.skip(i as int).drop_first() =~= all.skip(i + 1));
        if hit {
            return Some(line.to_owned());
        }
    }
    None
}

/// The line of a text that is read as the identity.
fn find_key_line(t: &str) -> (res: String)
    ensures
        res@ == key_line(t@),
{
    let lines = split_lines(t);
    match find_line(&lines, true) {
        Some(l) => l,
        None => match find_line(&lines, false) {
            Some(l) => l,
            None => "".to_owned(),
        },
    }
}

/// A text holds no identity; why not.
#[derive(Debug, PartialEq, Eq)]
pub struct IdentityError {
    pub detail: String,
}

impl IdentityError {
    /// A one-line description.
    pub fn message(&self) -> (res: String)
        ensures
            res@ == "not a valid age identity (expected AGE-SECRET-KEY-1…): "@ + self.detail@,
    {
        text::concat(
            "not a valid age identity (expected AGE-SECRET-KEY-1…): ",
            self.detail.as_str(),
        )
    }
}

/// Read an identity from a text: a bare key, or a key file with comment lines.
pub fn parse_identity(t: &str) -> (res: Result<Identity, IdentityError>)
    ensures
        match res {
            Ok(id) => {
                &&& identity_of(key_line(t@)) == Ok::<_, Seq<char>>(id@)
                &&& identity_of(id@.0) == Ok::<_, Seq<char>>(id@)
            },
            Err(e) => identity_of(key_line(t@)) == Err::<(Seq<char>, Seq<char>), _>(e.detail@),
        },
{
    let line = find_key_line(t);
    match Identity::parse(line.as_str()) {
        Ok(id) => Ok(id),
        Err(detail) => Err(IdentityError { detail }),
    }
}

// --- Archive ---------------------------------------------------------------

/// The newest archive among what was found in a backup folder.
pub fn newest_archive(items: &Vec<DirItem>) -> (res: Option<PathBuf>)
    ensures
        match res {
            Some(p) => exists|sorted: Seq<Seq<u8>>| #[trigger]
                is_sorted_form(sorted, archives_in(items@)) && sorted.len() > 0 && p@
                    == sorted.last(),
            None => archives_in(items@).len() == 0,
        },
{
    let archives = crate::backup::find_archives(items);
    assert(path_bytes(archives@).len() == archives@.len());
    let mut sorted = sort_paths(&archives);
    let ghost all = path_bytes(sorted@);
    match sorted.pop() {
        Some(p) => {
            assert(all.last() == p@);
            Some(p)
        },
        None => None,
    }
}

// --- Target ----------------------------------------------------------------

/// Why a backup is not restored into a folder.
#[derive(Debug, PartialEq, Eq)]
pub enum RestoreError {
    /// The folder and the source overlap.
    OverlapsSource { target: PathBuf, source: PathBuf },
    /// The folder has something in it.
    NotEmpty(PathBuf),
}

/// The sentence in which an error is reported.
pub open spec fn restore_error_text(e: RestoreError) -> Seq<char> {
    match e {
        RestoreError::OverlapsSource { target, source } => "refusing to restore into "@
            + lossy_text(target@) + " — it overlaps the read-only source "@ + lossy_text(source@),
        RestoreError::NotEmpty(target) => lossy_text(target@)
            + " already exists and is not empty — pass --force to restore into it"@,
    }
}

impl RestoreError {
    /// A one-line description.
    pub fn message(&self) -> (res: String)
        ensures
            res@ == restore_error_text(*self),
    {
        match self {
            RestoreError::OverlapsSource { target, source } => {
                let mut s = "refusing to restore into ".to_owned();
                s.append(target.display().as_str());
                s.append(" — it overlaps the read-only source ");
                s.append(source.display().as_str());
                s
            },
            RestoreError::NotEmpty(target) => text::concat(
                target.display().as_str(),
                " already exists and is not empty — pass --force to restore into it",
            ),
        }
    }
}

/// Whether a folder and the source overlap.
pub open spec fn clashes(target: Place, source: Option<Place>) -> bool {
    source matches Some(s) && overlap(s.resolved@, target.resolved@)
}

/// Whether a backup may be restored into a folder: one apart from the source and, but for
/// `force`, with nothing in it.
pub open spec fn is_restorable(
    target: Place,
    has_entries: bool,
    source: Option<Place>,
    force: bool,
) -> bool {
    !clashes(target, source) && (force || !has_entries)
}

/// Decide whether a backup may be restored into `target`. A folder that overlaps the
/// source is refused even with `force`; one that has something in it only without.
pub fn restore(target: &Place, has_entries: bool, source: &Option<Place>, force: bool) -> (res:
    Result<(), RestoreError>)
    ensures
        res is Ok <==> is_restorable(*target, has_entries, *source, force),
        match res {
            Ok(()) => true,
            Err(RestoreError::OverlapsSource { target: t, source: s }) => {
                &&& clashes(*target, *source)
                &&& t@ == target.path@
                &&& *source matches Some(src) && s@ == src.path@
            },
            Err(RestoreError::NotEmpty(t)) => {
                &&& !clashes(*target, *source)
                &&& !force
                &&& has_entries
                &&& t@ == target.path@
            },
        },
{
    if let Some(s) = source {
        if target.resolved.starts_with(&s.resolved) || s.resolved.starts_with(&target.resolved) {
            return Err(
                RestoreError::OverlapsSource { target: target.path.clone(), source: s.path.clone() },
            );
        }
    }
    if !force && has_entries {
        return Err(RestoreError::NotEmpty(target.path.clone()));
    }
    Ok(())
}

// --- Laws ------------------------------------------------------------------

/// A backup comes back: what was sealed to the recipient of an identity may be restored
/// into any empty folder apart from the source, without force, and that identity opens
/// it to the archive that went in.
pub proof fn law_backups_come_back(
    secret: Seq<char>,
    recipient: Seq<char>,
    archive: Seq<u8>,
    sealed: Seq<u8>,
    target: Place,
    source: Option<Place>,
)
    requires
        identity_of(secret) == Ok::<_, Seq<char>>((secret, recipient)),
        seals(sealed, recipient, archive),
        !clashes(target, source),
    ensures
        is_restorable(target, false, source, false),
        opened(secret, sealed) == Ok::<_, Option<Stage>>(archive),
{
    law_sealed_archives_open(secret, recipient, archive, sealed);
}

/// A backup is never restored into the source, above it or below it, with or without
/// force.
pub proof fn law_the_source_is_never_restored_into(
    target: Place,
    has_entries: bool,
    source: Place,
    force: bool,
)
    requires
        overlap(source.resolved@, target.resolved@),
    ensures
        !is_restorable(target, has_entries, Some(source), force),
{
}

/// A backup may be restored into a folder exactly where the folder lies neither within the
/// source nor around it and, but for force, has nothing in it.
pub proof fn law_restoring_is_guarded_exactly(
    target: Place,
    has_entries: bool,
    source: Option<Place>,
    force: bool,
)
    ensures
        is_restorable(target, has_entries, source, force) <==> (source matches Some(s) ==> {
            &&& !components(s.resolved@).is_prefix_of(components(target.resolved@))
            &&& !components(target.resolved@).is_prefix_of(components(s.resolved@))
        }) && (has_entries ==> force),
{
}

/// The newest archive is one of the archives, and none comes after it; there is one
/// wherever there are archives at all.
pub proof fn law_the_newest_archive_is_the_last(items: Seq<DirItem>, sorted: Seq<Seq<u8>>)
    requires
        is_sorted_form(sorted, archives_in(items)),
    ensures
        sorted.len() == archives_in(items).len(),
        sorted.len() > 0 ==> archives_in(items).contains(sorted.last()) && forall|a: Seq<u8>|
            #[trigger] archives_in(items).contains(a) ==> path_order(a, sorted.last())
            != Order::Greater,
{
    broadcast use vstd::seq_lib::group_to_multiset_ensures;
    let all = archives_in(items);
    assert(sorted.to_multiset().len() == all.to_multiset().len());
    if sorted.len() > 0 {
        let last = sorted.last();
        assert(sorted.contains(last));
        assert(sorted.to_multiset().contains(last));
        assert(all.to_multiset().contains(last));
        assert(all.contains(last));
        assert forall|a: Seq<u8>| #[trigger] all.contains(a) implies path_order(a, last)
            != Order::Greater by {
            assert(all.to_multiset().contains(a));
            assert(sorted.to_multiset().contains(a));
            assert(sorted.contains(a));
            let i = choose|i: int| 0 <= i < sorted.len() && sorted[i] == a;
            if i == sorted.len() - 1 {
                lemma_key_order(components(a), components(last));
            } else {
                assert(path_order(sorted[i], sorted[sorted.len() - 1]) != Order::Greater);
            }
        }
    }
}

/// The lines of a text, one for each line break and one more, are its pieces between line
/// breaks, trimmed.
pub proof fn law_lines_are_split_at_breaks(line: Seq<char>, rest: Seq<char>)
    requires
        !line.contains('\n'),
    ensures
        trimmed_lines(line) == seq![trimmed(line)],
        trimmed_lines(line + seq!['\n'] + rest) == seq![trimmed(line)] + trimmed_lines(rest),
{
    let t = line + seq!['\n'] + rest;
    let e = line.len() as int;
    assert forall|k: int| 0 <= k < e implies line[k] != '\n' by {
        assert(line.contains(line[k]));
    }
    lemma_break_none(line, 0);
    assert(t[e] == '\n');
    lemma_break_found(t, 0, e);
    assert(t.take(e) =~= line);
    assert(t.skip(e + 1) =~= rest);
}

/// The line that is read as the identity is the first that begins like a secret key, in
/// whatever case; where there is none, the first that is neither blank nor a comment.
pub proof fn law_the_key_line_is_the_first(t: Seq<char>)
    ensures
        ({
            let lines = trimmed_lines(t);
            let line = key_line(t);
            &&& forall|i: int|
                #![trigger lines[i]]
                0 <= i < lines.len() && "age-secret-key-"@.is_prefix_of(ascii_lower(lines[i]))
                    && (forall|k: int|
                    0 <= k < i ==> !"age-secret-key-"@.is_prefix_of(
                        ascii_lower(#[trigger] lines[k]),
                    )) ==> line == lines[i]
            &&& (forall|k: int|
                0 <= k < lines.len() ==> !"age-secret-key-"@.is_prefix_of(
                    ascii_lower(#[trigger] lines[k]),
                )) ==> forall|i: int|
                #![trigger lines[i]]
                0 <= i < lines.len() && lines[i].len() > 0 && lines[i][0] != '#' && (forall|
                    k: int,
                |
                    0 <= k < i ==> (#[trigger] lines[k]).len() == 0 || lines[k][0] == '#')
                    ==> line == lines[i]
        }),
{
    let lines = trimmed_lines(t);
    let p = |l: Seq<char>| is_secret_line(l);
    let q = |l: Seq<char>| is_plain_line(l);
    lemma_first_line(lines, p);
    lemma_first_line(lines, q);
}

proof fn lemma_first_line(lines: Seq<Seq<char>>, p: spec_fn(Seq<char>) -> bool)
    ensures
        forall|i: int|
            #![trigger lines[i]]
            0 <= i < lines.len() && p(lines[i]) && (forall|k: int|
                0 <= k < i ==> !p(#[trigger] lines[k])) ==> first_line(lines, p) == Some(
                lines[i],
            ),
        (forall|k: int| 0 <= k < lines.len() ==> !p(#[trigger] lines[k])) ==> first_line(lines, p)
            is None,
    decreases lines.len(),
{
    if lines.len() > 0 && !p(lines[0]) {
        let r = lines.drop_first();
        lemma_first_line(r, p);
        assert forall|i: int|
            #![trigger lines[i]]
            0 <= i < lines.len() && p(lines[i]) && (forall|k: int|
                0 <= k < i ==> !p(#[trigger] lines[k])) implies first_line(lines, p) == Some(
            lines[i],
        ) by {
            assert(i > 0);
            assert(r[i - 1] == lines[i]);
            assert forall|k: int| 0 <= k < i - 1 implies !p(#[trigger] r[k]) by {
                assert(r[k] == lines[k + 1]);
            }
        }
        if forall|k: int| 0 <= k < lines.len() ==> !p(#[trigger] lines[k]) {
            assert forall|k: int| 0 <= k < r.len() implies !p(#[trigger] r[k]) by {
                assert(r[k] == lines[k + 1]);
            }
        }
    }
}

/// A text without any line that could be a key stands for none.
pub proof fn law_texts_without_keys_hold_none(t: Seq<char>)
    requires
        forall|k: int|
            0 <= k < trimmed_lines(t).len() ==> !"age-secret-key-"@.is_prefix_of(
                ascii_lower(#[trigger] trimmed_lines(t)[k]),
            ) && (trimmed_lines(t)[k].len() == 0 || trimmed_lines(t)[k][0] == '#'),
    ensures
        key_line(t).len() == 0,
{
    reveal_strlit("");
    let lines = trimmed_lines(t);
    lemma_first_line(lines, |l: Seq<char>| is_secret_line(l));
    lemma_first_line(lines, |l: Seq<char>| is_plain_line(l));
}

} // verus!
