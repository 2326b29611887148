//! Scans waiting in the inbox, and where a filed scan goes in the archive.
use vstd::prelude::*;

use crate::actions::{
    date_path, digits_at, lemma_number_at_bound, lemma_number_at_mono, number_at, NoteDate,
};
use crate::settings::Paths;
use crate::text::{
    decimal, is_digit, lemma_text_le_antisymmetric, lemma_text_le_reflexive, render_int, render_integer,
    text_le,
};

verus! {

/// The error returned when a scan could not be removed from the inbox.
#[derive(Debug, Clone, Copy, PartialEq, Eq, Structural)]
pub struct DeleteError;

impl DeleteError {
    /// The message shown to the user.
    pub fn to_string(&self) -> (r: String)
        ensures
            r@ == "Error deleting scan"@,
    {
        String::from_str("Error deleting scan")
    }
}

/// The error returned when a scan could not be filed.
#[derive(Debug, Clone, Copy, PartialEq, Eq, Structural)]
pub struct PostError;

impl PostError {
    /// The message shown to the user.
    pub fn to_string(&self) -> (r: String)
        ensures
            r@ == "Error posting scan"@,
    {
        String::from_str("Error posting scan")
    }
}

/// One scan in the inbox, named by its directory.
#[derive(Debug, Clone)]
pub struct Scan {
    pub id: String,
}

/// One entry of the inbox directory as listed: its full path, and whether it is a directory.
#[derive(Debug, Clone)]
pub struct ScanEntry {
    pub path: String,
    pub is_dir: bool,
}

/// `p` without the path separators at its end.
pub open spec fn strip_trailing_slashes(p: Seq<char>) -> Seq<char>
    decreases p.len(),
{
    if p.len() > 0 && p.last() == '/' {
        strip_trailing_slashes(p.drop_last())
    } else {
        p
    }
}

/// What follows the last path separator of `p` (all of `p` if it has none).
pub open spec fn last_segment(p: Seq<char>) -> Seq<char>
    decreases p.len(),
{
    if p.len() == 0 || p.last() == '/' {
        Seq::empty()
    } else {
        last_segment(p.drop_last()).push(p.last())
    }
}

/// The final component of a path.
pub open spec fn file_name(p: Seq<char>) -> Seq<char> {
    last_segment(strip_trailing_slashes(p))
}

/// A path whose final component names an entry: it is neither empty, `.` nor `..`.
pub open spec fn has_file_name(p: Seq<char>) -> bool {
    let f = file_name(p);
    f.len() > 0 && f != seq!['.'] && f != seq!['.', '.']
}

/// The fixed name of the image file of a scan and of a note.
pub open spec fn payload_name() -> Seq<char> {
    seq!['r', 'e', 's', 'u', 'l', 't', '.', 'j', 'p', 'g']
}

/// The paths of the directories among `e`, in listing order.
pub open spec fn dir_paths(e: Seq<ScanEntry>) -> Seq<String>
    decreases e.len(),
{
    if e.len() == 0 {
        Seq::empty()
    } else if e.last().is_dir {
        dir_paths(e.drop_last()).push(e.last().path)
    } else {
        dir_paths(e.drop_last())
    }
}

/// Texts in ascending lexicographic order.
pub open spec fn texts_sorted(s: Seq<String>) -> bool {
    forall|i: int, j: int| 0 <= i < j < s.len() ==> text_le(#[trigger] s[i]@, #[trigger] s[j]@)
}

/// The ids of a list of scans.
pub open spec fn scan_ids(s: Seq<Scan>) -> Seq<Seq<char>> {
    s.map_values(|x: Scan| x.id@)
}

/// The `i32` that a text denotes, as `str::parse::<i32>` reads it: an optional `+` or `-`,
/// then one or more ASCII digits, with a value that fits in an `i32`.
pub open spec fn parse_i32(s: Seq<char>) -> Option<int> {
    let signed = s.len() > 0 && (s[0] == '+' || s[0] == '-');
    let start: int = if signed { 1 } else { 0 };
    let n = s.len() - start;
    let magnitude = number_at(s, start, n as nat);
    let v = if signed && s[0] == '-' { -magnitude } else { magnitude };
    if n > 0 && digits_at(s, start, n) && i32::MIN <= v <= i32::MAX {
        Some(v)
    } else {
        None
    }
}

/// `x` is one of `names` and no name comes after it in lexicographic order.
pub open spec fn is_last_text(names: Seq<String>, x: Seq<char>) -> bool {
    &&& exists|k: int| 0 <= k < names.len() && #[trigger] names[k]@ == x
    &&& forall|k: int| 0 <= k < names.len() ==> text_le(#[trigger] names[k]@, x)
}

/// The lexicographically last of `names`.
pub open spec fn last_text(names: Seq<String>) -> Seq<char> {
    choose|x: Seq<char>| is_last_text(names, x)
}

/// The number of the next note in a date folder whose entries are `names`: `000` in an empty
/// folder, else the lexicographically last name read as an integer, plus one, zero-padded to
/// three digits; nothing where that name is not an integer.
pub open spec fn next_note(names: Seq<String>) -> Option<Seq<char>> {
    if names.len() == 0 {
        Some(render_int(0, 3))
    } else {
        match parse_i32(last_text(names)) {
            Some(v) => Some(render_int(v + 1, 3)),
            None => None,
        }
    }
}

/// The first note filed in an empty date folder is numbered `000`.
pub proof fn lemma_first_note_number()
    ensures
        next_note(Seq::empty()) == Some(seq!['0', '0', '0']),
{
    assert(decimal(0) == seq!['0']);
    assert(render_int(0, 3) =~= seq!['0', '0', '0']);
}

/// The next note number is taken from the lexicographically last entry of the date folder,
/// whatever the numeric values of the other entries: that entry read as an integer, plus one.
pub proof fn lemma_next_note_from_last(names: Seq<String>, x: Seq<char>)
    requires
        is_last_text(names, x),
    ensures
        next_note(names) == match parse_i32(x) {
            Some(v) => Some(render_int(v + 1, 3)),
            None => None::<Seq<char>>,
        },
{
    let y = last_text(names);
    assert(is_last_text(names, y));
    let kx = choose|k: int| 0 <= k < names.len() && #[trigger] names[k]@ == x;
    let ky = choose|k: int| 0 <= k < names.len() && #[trigger] names[k]@ == y;
    assert(text_le(names[kx]@, y));
    assert(text_le(names[ky]@, x));
    lemma_text_le_antisymmetric(x, y);
}

/// The integer that `s` denotes, read as `str::parse::<i32>` reads it.
pub fn parse_int(s: &str) -> (r: Option<i64>)
    ensures
        r is Some <==> parse_i32(s@) is Some,
        r is Some ==> r->0 as int == parse_i32(s@)->0,
{
    let ghost p = s@;
    let len = s.unicode_len();
    if len == 0 {
        return None;
    }
    let first = s.get_char(0);
    let signed = first == '+' || first == '-';
    let start: usize = if signed { 1 } else { 0 };
    if start == len {
        return None;
    }
    let n = len - start;
    let mut acc: u64 = 0;
    let mut k: usize = 0;
    while k < n
        invariant
            p == s@,
            len == p.len(),
            start + n == len,
            len > 0,
            first == p[0],
            signed == (first == '+' || first == '-'),
            start == (if signed { 1usize } else { 0usize }),
            k <= n,
            digits_at(p, start as int, k as int),
            acc as int == number_at(p, start as int, k as nat),
            acc <= 2147483648,
        decreases n - k,
    {
        let c = s.get_char(start + k);
        if !('0' <= c && c <= '9') {
            assert(!is_digit(p[start + k]));
            assert(!digits_at(p, start as int, n as int));
            return None;
        }
        let d = (c as u32) - ('0' as u32);
        acc = acc * 10 + d as u64;
        k = k + 1;
        if acc > 2147483648 {
            proof {
                if digits_at(p, start as int, n as int) {
                    lemma_number_at_mono(p, start as int, k as nat, n as nat);
                    assert(number_at(p, start as int, n as nat) > 2147483648);
                }
            }
            return None;
        }
    }
    if first == '-' {
        Some(-(acc as i64))
    } else if acc <= 2147483647 {
        Some(acc as i64)
    } else {
        None
    }
}

/// Relies on `slice::sort` for `String`, which sorts in ascending order of `String`'s `Ord`:
/// lexicographic by the bytes of the UTF-8 encoding, the same order as by code points.
#[verifier::external_body]
fn sort_texts(v: &mut Vec<String>)
    ensures
        final(v)@.to_multiset() == old(v)@.to_multiset(),
        texts_sorted(final(v)@),
{
    v.sort();
}

/// The number of the next note in a date folder whose entries are named `names`.
pub fn next_note_number(names: Vec<String>) -> (r: Result<String, PostError>)
    ensures
        match next_note(names@) {
            Some(t) => r is Ok && r->Ok_0@ == t,
            None => r == Err::<String, PostError>(PostError),
        },
{
    let mut sorted = names;
    sort_texts(&mut sorted);
    let n = sorted.len();
    if n == 0 {
        proof {
            vstd::seq_lib::to_multiset_len(sorted@);
            vstd::seq_lib::to_multiset_len(names@);
        }
        return Ok(render_integer(0, 3));
    }
    let last = &sorted[n - 1];
    proof {
        let x = last@;
        vstd::seq_lib::to_multiset_contains(sorted@, *last);
        vstd::seq_lib::to_multiset_contains(names@, *last);
        let k0 = choose|k: int| 0 <= k < names@.len() && names@[k] == *last;
        assert(names@[k0]@ == x);
        assert forall|k: int| 0 <= k < names@.len() implies text_le(#[trigger] names@[k]@, x) by {
            vstd::seq_lib::to_multiset_contains(names@, names@[k]);
            vstd::seq_lib::to_multiset_contains(sorted@, names@[k]);
            let j = choose|j: int| 0 <= j < sorted@.len() && sorted@[j] == names@[k];
            if j < n - 1 {
                assert(text_le(sorted@[j]@, sorted@[n - 1]@));
            } else {
                lemma_text_le_reflexive(x);
            }
        }
        assert(is_last_text(names@, x));
        let y = last_text(names@);
        assert(is_last_text(names@, y));
        let ky = choose|k: int| 0 <= k < names@.len() && #[trigger] names@[k]@ == y;
        assert(text_le(names@[ky]@, x));
        assert(text_le(names@[k0]@, y));
        lemma_text_le_antisymmetric(x, y);
    }
    match parse_int(last.as_str()) {
        Some(v) => Ok(render_integer(v + 1, 3)),
        None => Err(PostError),
    }
}

/// Where a scan is filed: the new note's folder, the scan's image, and the image's place in
/// the note's folder.
#[derive(Debug, Clone)]
pub struct NotePlacement {
    pub note_dir: String,
    pub source: String,
    pub target: String,
}

impl Scan {
    /// The scan whose directory is `path`: its id is the path's final component.
    pub fn from_path(path: &str) -> (r: Scan)
        requires
            has_file_name(path@),
        ensures
            r.id@ == file_name(path@),
    {
        let ghost p = path@;
        let len = path.unicode_len();
        let mut end: usize = len;
        assert(p.subrange(0, end as int) =~= p);
        while end > 0 && path.get_char(end - 1) == '/'
            invariant
                end <= len == p.len(),
                p == path@,
                strip_trailing_slashes(p) == strip_trailing_slashes(p.subrange(0, end as int)),
            decreases end,
        {
            assert(p.subrange(0, end as int).drop_last() =~= p.subrange(0, end - 1));
            end = end - 1;
        }
        let ghost q = p.subrange(0, end as int);
        assert(strip_trailing_slashes(p) == q);
        let mut start: usize = end;
        assert(q.subrange(start as int, end as int) =~= Seq::<char>::empty());
        assert(q.subrange(0, start as int) =~= q);
        while start > 0 && path.get_char(start - 1) != '/'
            invariant
                start <= end <= len == p.len(),
                p == path@,
                q == p.subrange(0, end as int),
                last_segment(q) == last_segment(q.subrange(0, start as int)) + q.subrange(
                    start as int,
                    end as int,
                ),
            decreases start,
        {
            let ghost a = q.subrange(0, start as int);
            assert(a.drop_last() =~= q.subrange(0, start - 1));
            assert(q.subrange(start - 1, end as int) =~= seq![a.last()] + q.subrange(
                start as int,
                end as int,
            ));
            assert(last_segment(a) == last_segment(a.drop_last()).push(a.last()));
            assert(last_segment(a.drop_last()).push(a.last()) + q.subrange(start as int, end as int)
                =~= last_segment(a.drop_last()) + q.subrange(start - 1, end as int));
            start = start - 1;
        }
        let id = String::from_str(path.substring_char(start, end));
        assert(id@ =~= q.subrange(start as int, end as int));
        assert(last_segment(q.subrange(0, start as int)) =~= Seq::<char>::empty());
        assert(id@ =~= file_name(p));
        Scan { id }
    }

    /// The directory of this scan in the inbox.
    pub fn to_path(&self, paths: &Paths) -> (r: String)
        ensures
            r@ == paths.scans_path@ + seq!['/'] + self.id@,
    {
        proof {
            reveal_strlit("/");
        }
        paths.scans_path.clone().concat("/").concat(self.id.as_str())
    }

    /// The image file of this scan.
    pub fn image_path(&self, paths: &Paths) -> (r: String)
        ensures
            r@ == paths.scans_path@ + seq!['/'] + self.id@ + seq!['/'] + payload_name(),
    {
        proof {
            reveal_strlit("/result.jpg");
        }
        let r = self.to_path(paths).concat("/result.jpg");
        assert(r@ =~= paths.scans_path@ + seq!['/'] + self.id@ + seq!['/'] + payload_name());
        r
    }

    /// Where this scan is filed, given the date folder it goes to and the names of the entries
    /// that folder already holds: the note takes the next number of the folder.
    pub fn plan_post(&self, paths: &Paths, date_folder: &str, existing: Vec<String>) -> (r: Result<
        NotePlacement,
        PostError,
    >)
        ensures
            match next_note(existing@) {
                Some(t) => {
                    &&& r is Ok
                    &&& r->Ok_0.note_dir@ == date_folder@ + seq!['/'] + t
                    &&& r->Ok_0.source@ == paths.scans_path@ + seq!['/'] + self.id@ + seq!['/']
                        + payload_name()
                    &&& r->Ok_0.target@ == r->Ok_0.note_dir@ + seq!['/'] + payload_name()
                },
                None => r == Err::<NotePlacement, PostError>(PostError),
            },
    {
        proof {
            reveal_strlit("/");
            reveal_strlit("/result.jpg");
        }
        let number = next_note_number(existing)?;
        let note_dir = String::from_str(date_folder).concat("/").concat(number.as_str());
        let target = note_dir.clone().concat("/result.jpg");
        let source = self.image_path(paths);
        assert(target@ =~= note_dir@ + seq!['/'] + payload_name());
        Ok(NotePlacement { note_dir, source, target })
    }

    /// The scans among the listed inbox entries: the directories, in ascending order of their
    /// paths, each named by its final component.
    pub fn populate_scans(entries: &Vec<ScanEntry>) -> (r: Vec<Scan>)
        requires
            forall|i: int|
                0 <= i < entries@.len() && #[trigger] entries@[i].is_dir ==> has_file_name(
                    entries@[i].path@,
                ),
        ensures
            exists|ps: Seq<String>|
                {
                    &&& texts_sorted(ps)
                    &&& ps.to_multiset() == dir_paths(entries@).to_multiset()
                    &&& ps.len() == r@.len()
                    &&& forall|i: int| 0 <= i < ps.len() ==> #[trigger] r@[i].id@ == file_name(ps[i]@)
                },
    {
        let mut dirs: Vec<String> = Vec::new();
        let mut i: usize = 0;
        while i < entries.len()
            invariant
                i <= entries@.len(),
                dirs@ == dir_paths(entries@.subrange(0, i as int)),
                forall|k: int| 0 <= k < dirs@.len() ==> has_file_name(#[trigger] dirs@[k]@),
                forall|i: int|
                    0 <= i < entries@.len() && #[trigger] entries@[i].is_dir ==> has_file_name(
                        entries@[i].path@,
                    ),
            decreases entries@.len() - i,
        {
            assert(entries@.subrange(0, i + 1).drop_last() =~= entries@.subrange(0, i as int));
            if entries[i].is_dir {
                dirs.push(entries[i].path.clone());
            }
            i = i + 1;
        }
        assert(entries@.subrange(0, i as int) =~= entries@);
        let ghost unsorted = dirs@;
        sort_texts(&mut dirs);
        proof {
            assert forall|k: int| 0 <= k < dirs@.len() implies has_file_name(#[trigger] dirs@[k]@) by {
                vstd::seq_lib::to_multiset_contains(dirs@, dirs@[k]);
                vstd::seq_lib::to_multiset_contains(unsorted, dirs@[k]);
            }
        }
        let mut r: Vec<Scan> = Vec::new();
        let mut j: usize = 0;
        while j < dirs.len()
            invariant
                j <= dirs@.len(),
                r@.len() == j,
                forall|k: int| 0 <= k < dirs@.len() ==> has_file_name(#[trigger] dirs@[k]@),
                forall|k: int| 0 <= k < j ==> #[trigger] r@[k].id@ == file_name(dirs@[k]@),
            decreases dirs@.len() - j,
        {
            let scan = Scan::from_path(dirs[j].as_str());
            r.push(scan);
            j = j + 1;
        }
        assert(texts_sorted(dirs@));
        r
    }
}

} // verus!
