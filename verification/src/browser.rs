//! The list of saved meetings in the app.

use vstd::prelude::*;
use vstd::string::*;

use crate::folders::{extension, extension_of, file_stem, stem_of};
use crate::order::{
    law_sort_is_stable, law_sort_keeps_items, law_sort_orders, lemma_sort_map, sorted_by, stable_sort,
};
use crate::platform::Platform;
use crate::text::{chars_of, cut_to_bytes, first_bytes, first_index, same_text, text_view, views};

verus! {

/// How many bytes of a transcript are shown at most.
pub const MAX_CONTENT_BYTES: usize = 200_000;

/// A saved meeting.
pub struct MeetingNote {
    pub title: String,
    pub path: String,
    /// When it was last written, in milliseconds since 1970.
    pub modified_ms: u64,
    pub content: String,
}

/// A file in the meetings folder: its name, its path, when it was last written and
/// what it holds, where those are known.
pub struct FoundNote {
    pub name: String,
    pub path: String,
    pub modified_ms: Option<u64>,
    pub content: Option<String>,
}

/// A saved meeting, as its contracts see it: title, path, time and content.
pub type NoteView = (Seq<char>, Seq<char>, u64, Seq<char>);

/// What a file that could not be read counts as holding.
pub open spec fn content_of(f: FoundNote) -> Seq<char> {
    match f.content {
        Some(c) => c@,
        None => Seq::empty(),
    }
}

/// When a file counts as written.
pub open spec fn time_of(f: FoundNote) -> u64 {
    match f.modified_ms {
        Some(t) => t,
        None => 0,
    }
}

/// The saved meeting that a transcript file is.
pub open spec fn note_of(f: FoundNote) -> NoteView {
    (file_stem(f.name@), f.path@, time_of(f), first_bytes(content_of(f), MAX_CONTENT_BYTES as nat))
}

/// Whether a file is a transcript.
pub open spec fn is_transcript(f: FoundNote) -> bool {
    extension(f.name@) == Some("md"@)
}

/// The saved meetings among the files.
pub open spec fn notes_in(files: Seq<FoundNote>) -> Seq<NoteView>
    decreases files.len(),
{
    if files.len() == 0 {
        Seq::empty()
    } else {
        let before = notes_in(files.drop_last());
        if is_transcript(files.last()) {
            before.push(note_of(files.last()))
        } else {
            before
        }
    }
}

/// Whether a meeting was written later than another.
pub open spec fn later(a: NoteView, b: NoteView) -> bool {
    a.2 > b.2
}

impl MeetingNote {
    pub open spec fn view(&self) -> NoteView {
        (self.title@, self.path@, self.modified_ms, self.content@)
    }
}

/// Saved meetings by their views.
pub open spec fn notes_view(v: Seq<MeetingNote>) -> Seq<NoteView> {
    v.map_values(|n: MeetingNote| n.view())
}

fn is_later(a: &MeetingNote, b: &MeetingNote) -> (r: bool)
    ensures
        r == later(a.view(), b.view()),
{
    a.modified_ms > b.modified_ms
}

/// The saved meetings among the files of the meetings folder, the latest first;
/// none where the folder could not be read.
pub fn list_meeting_notes(files: Option<&Vec<FoundNote>>) -> (r: Vec<MeetingNote>)
    ensures
        match files {
            Some(fs) => notes_view(r@) == stable_sort(
                notes_in(fs@),
                |a: NoteView, b: NoteView| later(a, b),
            ),
            None => r@.len() == 0,
        },
{
    let fs = match files {
        Some(fs) => fs,
        None => {
            return Vec::new();
        },
    };
    let mut out: Vec<MeetingNote> = Vec::new();
    let mut i: usize = 0;
    assert(notes_view(out@) == notes_in(fs@.take(0)));
    while i < fs.len()
        invariant
            i <= fs@.len(),
            notes_view(out@) == notes_in(fs@.take(i as int)),
        decreases fs@.len() - i,
    {
        let f = &fs[i];
        assert(fs@.take(i + 1).drop_last() == fs@.take(i as int));
        let is_md = match extension_of(f.name.as_str()) {
            Some(e) => same_text(e, "md"),
            None => false,
        };
        if is_md {
            let modified_ms: u64 = match f.modified_ms {
                Some(t) => t,
                None => 0,
            };
            let content = match &f.content {
                Some(c) => cut_to_bytes(c.as_str(), MAX_CONTENT_BYTES).0.to_owned(),
                None => String::new(),
            };
            let title = stem_of(f.name.as_str()).to_owned();
            let note = MeetingNote { title, path: f.path.clone(), modified_ms, content };
            assert(note.view() == note_of(*f));
            let ghost before = notes_view(out@);
            out.push(note);
            assert(notes_view(out@) == before.push(note.view()));
        }
        i += 1;
    }
    assert(fs@.take(i as int) == fs@);
    let ghost all = out@;
    let ghost model = |a: MeetingNote, b: MeetingNote| later(a.view(), b.view());
    let ghost order = |a: NoteView, b: NoteView| later(a, b);
    proof {
        lemma_sort_map(all, |n: MeetingNote| n.view(), model, order);
    }
    sorted_by(out, is_later, Ghost(model))
}

/// The pieces of a path between its separators.
pub open spec fn pieces(path: Seq<char>) -> Seq<Seq<char>>
    decreases path.len(),
{
    let n = first_index(path, '/') as int;
    if n >= path.len() {
        seq![path]
    } else {
        seq![path.take(n)] + pieces(path.skip(n + 1))
    }
}

/// The pieces that count: not the empty ones between separators, nor a dot that
/// stands for the directory itself, unless the path begins with it.
pub open spec fn counted(ps: Seq<Seq<char>>) -> Seq<Seq<char>>
    decreases ps.len(),
{
    if ps.len() == 0 {
        Seq::empty()
    } else {
        let before = counted(ps.drop_last());
        if ps.last().len() == 0 || (ps.last() == "."@ && ps.len() > 1) {
            before
        } else {
            before.push(ps.last())
        }
    }
}

/// The components of a path; that of an absolute one begins with the root.
pub open spec fn components(path: Seq<char>) -> Seq<Seq<char>> {
    if path.len() > 0 && path[0] == '/' {
        seq!["/"@] + counted(pieces(path))
    } else {
        counted(pieces(path))
    }
}

/// Where components lead from a directory, each `..` taking back the name before it;
/// nothing once they lead out of it.
pub open spec fn resolved(parts: Seq<Seq<char>>) -> Option<Seq<Seq<char>>>
    decreases parts.len(),
{
    if parts.len() == 0 {
        Some(Seq::empty())
    } else {
        match resolved(parts.drop_last()) {
            None => None,
            Some(at) => if parts.last() != ".."@ {
                Some(at.push(parts.last()))
            } else if at.len() > 0 {
                Some(at.drop_last())
            } else {
                None
            },
        }
    }
}

/// Whether a path lies in a directory: by whole components, and without leading out
/// of it on the way.
pub open spec fn lies_in(path: Seq<char>, dir: Seq<char>) -> bool {
    let (p, d) = (components(path), components(dir));
    d.is_prefix_of(p) && resolved(p.skip(d.len() as int)) is Some
}

fn split_path(path: &str) -> (r: Vec<String>)
    ensures
        views(r@) == pieces(path@),
{
    let v = chars_of(path);
    let mut out: Vec<String> = Vec::new();
    let mut i: usize = 0;
    assert(v@.skip(0) == v@);
    assert(views(out@) + pieces(v@) == pieces(v@));
    loop
        invariant
            i <= v@.len(),
            v@ == path@,
            views(out@) + pieces(v@.skip(i as int)) == pieces(path@),
        decreases v@.len() - i,
    {
        let ghost rest = v@.skip(i as int);
        let mut to: usize = i;
        while to < v.len() && v[to] != '/'
            invariant
                i <= to <= v@.len(),
                rest == v@.skip(i as int),
                first_index(rest, '/') == (to - i) + first_index(v@.skip(to as int), '/'),
            decreases v@.len() - to,
        {
            assert(v@.skip(to as int).drop_first() == v@.skip(to + 1));
            to += 1;
        }
        assert(first_index(rest, '/') == to - i);
        let ghost before = views(out@);
        let piece = path.substring_char(i, to).to_owned();
        assert(piece@ == rest.take(to - i));
        out.push(piece);
        assert(views(out@) == before.push(piece@));
        if to == v.len() {
            assert(piece@ == rest);
            assert(before + seq![rest] == before.push(rest));
            return out;
        }
        assert(rest.skip(to - i + 1) == v@.skip(to + 1));
        assert(before + (seq![piece@] + pieces(v@.skip(to + 1))) == before.push(piece@) + pieces(
            v@.skip(to + 1),
        ));
        i = to + 1;
    }
}

/// The components of a path, as `Path::components` finds them.
pub fn path_components(path: &str) -> (r: Vec<String>)
    ensures
        views(r@) == components(path@),
{
    let ps = split_path(path);
    let v = chars_of(path);
    let mut out: Vec<String> = Vec::new();
    if v.len() > 0 && v[0] == '/' {
        out.push("/".to_owned());
        assert(views(out@) == seq!["/"@]);
    } else {
        assert(views(out@) == Seq::<Seq<char>>::empty());
    }
    let ghost root = views(out@);
    let mut i: usize = 0;
    assert(root + counted(views(ps@).take(0)) == root);
    while i < ps.len()
        invariant
            i <= ps@.len(),
            views(out@) == root + counted(views(ps@).take(i as int)),
        decreases ps@.len() - i,
    {
        let ghost seen = counted(views(ps@).take(i as int));
        assert(views(ps@).take(i + 1).drop_last() == views(ps@).take(i as int));
        let p = ps[i].as_str();
        if !(p.unicode_len() == 0 || (same_text(p, ".") && i > 0)) {
            let ghost before = views(out@);
            out.push(p.to_owned());
            assert(views(out@) == before.push(p@));
            assert(root + seen.push(p@) == (root + seen).push(p@));
        }
        i += 1;
    }
    assert(views(ps@).take(i as int) == views(ps@));
    assert(views(out@) == components(path@));
    out
}

/// Whether a path lies in a directory.
pub fn is_inside(path: &str, dir: &str) -> (r: bool)
    ensures
        r == lies_in(path@, dir@),
{
    let p = path_components(path);
    let d = path_components(dir);
    assert(views(p@).len() == p@.len() && views(d@).len() == d@.len());
    if d.len() > p.len() {
        return false;
    }
    let mut i: usize = 0;
    while i < d.len()
        invariant
            i <= d@.len() <= p@.len(),
            views(p@) == components(path@),
            views(d@) == components(dir@),
            forall|k: int| 0 <= k < i ==> #[trigger] views(p@)[k] == views(d@)[k],
        decreases d@.len() - i,
    {
        if !same_text(p[i].as_str(), d[i].as_str()) {
            assert(views(p@).take(d@.len() as int)[i as int] != views(d@)[i as int]);
            return false;
        }
        i += 1;
    }
    assert(views(p@).take(d@.len() as int) == views(d@));
    let ghost below = views(p@).skip(d@.len() as int);
    let mut depth: usize = 0;
    assert(below.take(0) == Seq::<Seq<char>>::empty());
    while i < p.len()
        invariant
            d@.len() <= i <= p@.len(),
            views(p@) == components(path@),
            views(d@) == components(dir@),
            below == views(p@).skip(d@.len() as int),
            depth <= i,
            resolved(below.take(i - d@.len())) matches Some(at) && at.len() == depth,
        decreases p@.len() - i,
    {
        let ghost n = i - d@.len();
        assert(below[n] == p@[i as int]@);
        assert(below.take(n + 1).drop_last() == below.take(n));
        if !same_text(p[i].as_str(), "..") {
            depth += 1;
        } else if depth > 0 {
            depth -= 1;
        } else {
            proof {
                lemma_out_is_out(below, n + 1);
            }
            return false;
        }
        i += 1;
    }
    assert(below.take(i - d@.len()) == below);
    true
}

/// What has led out of a directory does not come back.
proof fn lemma_out_is_out(parts: Seq<Seq<char>>, k: int)
    requires
        0 <= k <= parts.len(),
        resolved(parts.take(k)) is None,
    ensures
        resolved(parts) is None,
    decreases parts.len(),
{
    if k == parts.len() {
        assert(parts.take(k) == parts);
    } else {
        assert(parts.drop_last().take(k) == parts.take(k));
        lemma_out_is_out(parts.drop_last(), k);
    }
}

/// Whether a path may be opened: only files that live in the meetings folder.
pub fn open_meeting_note(dir: &str, path: &str) -> (r: Result<(), String>)
    ensures
        match r {
            Ok(()) => lies_in(path@, dir@),
            Err(e) => !lies_in(path@, dir@) && e@ == "not a meeting note"@,
        },
{
    if is_inside(path, dir) {
        Ok(())
    } else {
        Err("not a meeting note".to_owned())
    }
}

/// What is said where there are no meetings.
pub const MACOS_ONLY: &'static str = "meeting mode is macOS-only";

/// The microphone picked for a recording: an empty name goes back to automatic.
pub fn meeting_set_mic(platform: Platform, device: String) -> (r: Result<Option<String>, String>)
    ensures
        match platform {
            Platform::MacOs => r matches Ok(pick) && text_view(pick) == if device@.len() == 0 {
                None
            } else {
                Some(device@)
            },
            _ => r matches Err(e) && e@ == MACOS_ONLY@,
        },
{
    match platform {
        Platform::MacOs => if device.as_str().unicode_len() == 0 {
            Ok(None)
        } else {
            Ok(Some(device))
        },
        _ => Err(MACOS_ONLY.to_owned()),
    }
}

/// How many rows the recording indicator grows by for its picker.
pub fn meeting_picker_resize(platform: Platform, rows: u32) -> (r: Result<u32, String>)
    ensures
        match platform {
            Platform::MacOs => r matches Ok(n) && n == rows,
            _ => r matches Err(e) && e@ == MACOS_ONLY@,
        },
{
    match platform {
        Platform::MacOs => Ok(rows),
        _ => Err(MACOS_ONLY.to_owned()),
    }
}

/// Whether `name` names something in a directory, in one component.
pub open spec fn plain_name(name: Seq<char>) -> bool {
    !name.contains('/') && name.len() > 0 && name != "."@ && name != ".."@
}

/// The files that a meeting leaves in its folder can be opened from the list: any
/// path made of the folder and one more plain name lies in the folder.
pub proof fn law_own_files_open(dir: Seq<char>, name: Seq<char>)
    requires
        dir.len() > 0,
        plain_name(name),
    ensures
        lies_in(dir.push('/') + name, dir),
        components(dir.push('/') + name) == components(dir).push(name),
{
    let path = dir.push('/') + name;
    lemma_one_more(dir, name);
    let c = components(dir);
    assert(components(path) == c.push(name));
    assert(c.push(name).take(c.len() as int) == c);
    let below = components(path).skip(c.len() as int);
    assert(below == seq![name]);
    assert(below.drop_last() == Seq::<Seq<char>>::empty());
    reveal_with_fuel(resolved, 2);
}

/// No way out: a path that leads above the folder is not in it, wherever it goes from
/// there. `k` is how many of its components behind the folder's lead back to the folder
/// itself.
pub proof fn law_no_way_out(dir: Seq<char>, path: Seq<char>, k: int)
    requires
        k >= 0,
        components(dir).len() + k < components(path).len(),
        resolved(components(path).skip(components(dir).len() as int).take(k)) == Some(
            Seq::<Seq<char>>::empty(),
        ),
        components(path)[components(dir).len() + k] == ".."@,
    ensures
        !lies_in(path, dir),
{
    let below = components(path).skip(components(dir).len() as int);
    assert(below.take(k + 1).drop_last() == below.take(k));
    assert(below.take(k + 1).last() == ".."@);
    lemma_out_is_out(below, k + 1);
}

/// A detour inside the folder is no way out: `sub/../name` is as good as `name`.
pub proof fn law_detours_inside_open(dir: Seq<char>, sub: Seq<char>, name: Seq<char>)
    requires
        dir.len() > 0,
        plain_name(sub),
        plain_name(name),
    ensures
        lies_in(dir.push('/') + sub + "/../"@ + name, dir),
        resolved(
            components(dir.push('/') + sub + "/../"@ + name).skip(components(dir).len() as int),
        ) == Some(seq![name]),
{
    reveal_strlit("..");
    reveal_strlit("/../");
    reveal_strlit(".");
    let one = dir.push('/') + sub;
    let two = one.push('/') + ".."@;
    let path = dir.push('/') + sub + "/../"@ + name;
    assert(path == two.push('/') + name);
    lemma_one_more(dir, sub);
    lemma_one_more(one, ".."@);
    lemma_one_more(two, name);
    let d = components(dir);
    let below = components(path).skip(d.len() as int);
    assert(components(path).take(d.len() as int) == d);
    assert(below == seq![sub, ".."@, name]);
    assert(below.drop_last() == seq![sub, ".."@]);
    assert(below.drop_last().drop_last() == seq![sub]);
    assert(below.drop_last().drop_last().drop_last() == Seq::<Seq<char>>::empty());
    reveal_with_fuel(resolved, 4);
    assert(seq![sub].drop_last() == Seq::<Seq<char>>::empty());
    assert(Seq::<Seq<char>>::empty().push(sub) == seq![sub]);
    assert(Seq::<Seq<char>>::empty().push(name) == seq![name]);
}

/// One more name at the end of a path is one more component.
proof fn lemma_one_more(dir: Seq<char>, name: Seq<char>)
    requires
        dir.len() > 0,
        !name.contains('/'),
        name.len() > 0,
        name != "."@,
    ensures
        components(dir.push('/') + name) == components(dir).push(name),
{
    let path = dir.push('/') + name;
    lemma_pieces_join(dir, name);
    let ps = pieces(path);
    assert(ps.drop_last() == pieces(dir));
    lemma_some_piece(dir);
    assert(counted(ps) == counted(pieces(dir)).push(name));
    assert(path[0] == dir[0]);
    let root = seq!["/"@];
    assert(root + counted(pieces(dir)).push(name) == (root + counted(pieces(dir))).push(name));
}

/// Nothing beside the folder opens by a path that goes through it.
pub proof fn law_files_beside_stay_shut(dir: Seq<char>, name: Seq<char>)
    requires
        dir.len() > 0,
        !name.contains('/'),
    ensures
        !lies_in(dir + "/../"@ + name, dir),
{
    reveal_strlit("..");
    reveal_strlit("/../");
    reveal_strlit(".");
    lemma_one_more(dir, ".."@);
    let up = dir.push('/') + ".."@;
    let path = dir + "/../"@ + name;
    assert(path == up.push('/') + name);
    lemma_pieces_join(up, name);
    let ps = pieces(path);
    assert(ps.drop_last() == pieces(up));
    lemma_some_piece(up);
    assert(path[0] == up[0]);
    let (c, d) = (components(up), components(dir));
    assert(components(path) == c || components(path) == c.push(name)) by {
        let root = seq!["/"@];
        assert(root + counted(pieces(up)).push(name) == (root + counted(pieces(up))).push(name));
    }
    assert(components(path)[d.len() as int] == ".."@);
    assert(components(path).skip(d.len() as int).take(0) == Seq::<Seq<char>>::empty());
    law_no_way_out(dir, path, 0);
}

proof fn lemma_some_piece(path: Seq<char>)
    ensures
        pieces(path).len() > 0,
{
}

proof fn lemma_pieces_join(a: Seq<char>, name: Seq<char>)
    requires
        !name.contains('/'),
    ensures
        pieces(a.push('/') + name) == pieces(a).push(name),
    decreases a.len(),
{
    let path = a.push('/') + name;
    crate::text::lemma_first_index(path, '/');
    crate::text::lemma_first_index(a, '/');
    let n = first_index(path, '/') as int;
    let m = first_index(a, '/') as int;
    assert(path[a.len() as int] == '/');
    if m >= a.len() {
        assert(n == a.len()) by {
            if n < a.len() {
                assert(path[n] == a[n]);
            }
        }
        assert(path.take(n) == a);
        assert(path.skip(n + 1) == name);
        lemma_whole(name);
        assert(seq![a] + seq![name] == seq![a].push(name));
    } else {
        assert(n == m) by {
            assert(path[m] == a[m]);
            if n < m {
                assert(path[n] == a[n]);
            }
        }
        let rest = a.skip(m + 1);
        lemma_pieces_join(rest, name);
        assert(path.take(n) == a.take(m));
        assert(path.skip(n + 1) == rest.push('/') + name);
        assert(seq![a.take(m)] + pieces(rest).push(name) == (seq![a.take(m)] + pieces(rest)).push(
            name,
        ));
    }
}

proof fn lemma_whole(name: Seq<char>)
    requires
        !name.contains('/'),
    ensures
        pieces(name) == seq![name],
{
    crate::text::lemma_first_index(name, '/');
    let n = first_index(name, '/') as int;
    if n < name.len() {
        assert(name.contains(name[n]));
    }
}

/// Each transcript file is one saved meeting, in order, and no other file is: its title is
/// the name without the extension, its path the file's, its time the file's or none, and
/// its content what fits of the file's.
pub proof fn law_each_transcript_is_a_meeting(files: Seq<FoundNote>, f: FoundNote)
    ensures
        notes_in(Seq::empty()) == Seq::<NoteView>::empty(),
        extension(f.name@) == Some(seq!['m', 'd']) ==> {
            let content = if f.content is Some {
                f.content->0@
            } else {
                Seq::empty()
            };
            let time = if f.modified_ms is Some {
                f.modified_ms->0
            } else {
                0
            };
            notes_in(files.push(f)) == notes_in(files).push(
                (file_stem(f.name@), f.path@, time, first_bytes(content, 200_000)),
            )
        },
        extension(f.name@) != Some(seq!['m', 'd']) ==> notes_in(files.push(f)) == notes_in(files),
{
    reveal_strlit("md");
    assert("md"@ == seq!['m', 'd']);
    assert(files.push(f).drop_last() == files);
}

/// The list holds the saved meetings, each as often as there is one, the latest first;
/// those of one time stay in their order.
pub proof fn law_latest_meetings_come_first(files: Seq<FoundNote>, time: u64)
    ensures
        ({
            let all = notes_in(files);
            let list = stable_sort(all, |a: NoteView, b: NoteView| later(a, b));
            &&& list.to_multiset() == all.to_multiset()
            &&& forall|i: int, j: int|
                0 <= i < j < list.len() ==> (#[trigger] list[i]).2 >= (#[trigger] list[j]).2
            &&& list.filter(|n: NoteView| n.2 == time) == all.filter(|n: NoteView| n.2 == time)
        }),
{
    let all = notes_in(files);
    let order = |a: NoteView, b: NoteView| later(a, b);
    let class = |n: NoteView| n.2 == time;
    let list = stable_sort(all, order);
    law_sort_orders(all, order);
    law_sort_keeps_items(all, order);
    law_sort_is_stable(all, order, class);
    assert forall|i: int, j: int| 0 <= i < j < list.len() implies (#[trigger] list[i]).2 >= (
    #[trigger] list[j]).2 by {
        assert(!order(list[j], list[i]));
    }
}

/// A path is made of the names between its separators. A separator at the end, a doubled
/// one and a dot behind one add nothing, and one in front is the root.
pub proof fn law_paths_are_made_of_names(path: Seq<char>, name: Seq<char>)
    requires
        !name.contains('/'),
        name.len() > 0,
    ensures
        components(Seq::empty()) == Seq::<Seq<char>>::empty(),
        components(name) == seq![name],
        components(seq!['/']) == seq![seq!['/']],
        name != "."@ ==> components(seq!['/'] + name) == seq![seq!['/'], name],
        path.len() > 0 ==> components(path.push('/')) == components(path),
        path.len() > 0 ==> components(path + "/."@) == components(path),
        path.len() > 0 && name != "."@ ==> components(path.push('/') + name) == components(
            path,
        ).push(name) && components(path.push('/').push('/') + name) == components(path).push(name),
{
    reveal_strlit("/");
    reveal_strlit(".");
    reveal_strlit("/.");
    let none = Seq::<char>::empty();
    let nothing = Seq::<Seq<char>>::empty();
    let root = seq!['/'];
    assert("/"@ == root);
    reveal_with_fuel(counted, 3);
    lemma_whole(none);
    assert(seq![none].drop_last() == nothing);
    lemma_whole(name);
    assert(seq![name].drop_last() == nothing);
    assert(nothing.push(name) == seq![name]);
    assert(name[0] != '/') by {
        assert(name.contains(name[0]));
    }
    assert(components(name) == seq![name]);
    lemma_pieces_join(none, none);
    assert(none.push('/') + none == root);
    assert(pieces(root) == seq![none].push(none));
    assert(seq![none].push(none).drop_last() == seq![none]);
    assert(counted(pieces(root)) == nothing);
    assert(seq!["/"@] + nothing == seq![root]);
    if name != "."@ {
        lemma_one_more_behind_the_root(name);
    }
    if path.len() > 0 {
        lemma_some_piece(path);
        lemma_pieces_join(path, none);
        assert(path.push('/') + none == path.push('/'));
        assert(pieces(path).push(none).drop_last() == pieces(path));
        assert(path.push('/')[0] == path[0]);
        assert(!"."@.contains('/'));
        lemma_pieces_join(path, "."@);
        assert(path.push('/') + "."@ == path + "/."@);
        assert(pieces(path).push("."@).drop_last() == pieces(path));
        assert((path + "/."@)[0] == path[0]);
        if name != "."@ {
            lemma_one_more(path, name);
            lemma_one_more(path.push('/'), name);
        }
    }
}

proof fn lemma_one_more_behind_the_root(name: Seq<char>)
    requires
        !name.contains('/'),
        name.len() > 0,
        name != "."@,
    ensures
        components(seq!['/'] + name) == seq![seq!['/'], name],
{
    reveal_strlit("/");
    let none = Seq::<char>::empty();
    let path = seq!['/'] + name;
    assert("/"@ == seq!['/']);
    lemma_pieces_join(none, name);
    assert(none.push('/') + name == path);
    lemma_whole(none);
    let ps = seq![none].push(name);
    assert(pieces(path) == ps);
    assert(ps.drop_last() == seq![none]);
    assert(seq![none].drop_last() == Seq::<Seq<char>>::empty());
    reveal_with_fuel(counted, 3);
    assert(counted(ps) == Seq::<Seq<char>>::empty().push(name));
    assert(seq!["/"@] + Seq::<Seq<char>>::empty().push(name) == seq![seq!['/'], name]);
}

/// A name leads one step down, two dots one step back, and two dots at the top lead out,
/// for good.
pub proof fn law_two_dots_lead_back(parts: Seq<Seq<char>>, name: Seq<char>)
    requires
        name != seq!['.', '.'],
    ensures
        resolved(Seq::empty()) == Some(Seq::<Seq<char>>::empty()),
        resolved(parts) matches Some(at) ==> {
            &&& resolved(parts.push(name)) == Some(at.push(name))
            &&& resolved(parts.push(name).push(seq!['.', '.'])) == Some(at)
            &&& at.len() == 0 ==> resolved(parts.push(seq!['.', '.'])) is None
        },
        resolved(parts) is None ==> resolved(parts.push(name)) is None && resolved(
            parts.push(seq!['.', '.']),
        ) is None,
{
    reveal_strlit("..");
    let up = seq!['.', '.'];
    assert(".."@ == up);
    assert(parts.push(name).drop_last() == parts);
    assert(parts.push(up).drop_last() == parts);
    assert(parts.push(name).push(up).drop_last() == parts.push(name));
    if let Some(at) = resolved(parts) {
        assert(at.push(name).drop_last() == at);
    }
}

/// A path lies in a directory exactly where its names begin with those of the directory
/// and the others do not lead out of it.
pub proof fn law_inside_is_below(dir: Seq<char>, path: Seq<char>)
    ensures
        lies_in(path, dir) <==> {
            &&& components(path).len() >= components(dir).len()
            &&& forall|i: int|
                0 <= i < components(dir).len() ==> #[trigger] components(path)[i] == components(
                    dir,
                )[i]
            &&& resolved(components(path).skip(components(dir).len() as int)) is Some
        },
{
    let (p, d) = (components(path), components(dir));
    if d.is_prefix_of(p) {
        assert forall|i: int| 0 <= i < d.len() implies #[trigger] p[i] == d[i] by {
            assert(p.take(d.len() as int)[i] == p[i]);
        }
    } else if p.len() >= d.len() && forall|i: int| 0 <= i < d.len() ==> #[trigger] p[i] == d[i] {
        assert(p.take(d.len() as int) == d);
    }
}

} // verus!
