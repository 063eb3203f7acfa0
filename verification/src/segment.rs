//! Segment files and their names: `<name>_<timestamp>.db`.

use vstd::prelude::*;
use vstd::string::StringExecFns;

use crate::directory::Directory;
use crate::number::{
    decimal, decimal_string, is_digit, lemma_parse_decimal, parse_number, parse_u64,
};
use crate::sorted_map::keys_in_order;
use crate::text::{
    chars_of, lemma_split_at_last, lemma_split_parts, lemma_stripped, rsplit_once, same,
    split_at_last, string_views, strip_suffix, without_suffix,
};

verus! {

/// A segment of a database.
#[derive(Debug)]
pub struct Segment {
    pub segment_name: String,
    pub timestamp: u64,
}

/// What names a segment.
pub struct SegmentView {
    pub name: Seq<char>,
    pub timestamp: u64,
}

impl View for Segment {
    type V = SegmentView;

    open spec fn view(&self) -> SegmentView {
        SegmentView { name: self.segment_name@, timestamp: self.timestamp }
    }
}

/// The name of the file of a segment.
pub open spec fn segment_filename(s: SegmentView) -> Seq<char> {
    s.name + seq!['_'] + decimal(s.timestamp as nat) + seq!['.', 'd', 'b']
}

/// The name of the hint file of a segment.
pub open spec fn segment_hint_filename(s: SegmentView) -> Seq<char> {
    s.name + seq!['_'] + decimal(s.timestamp as nat) + seq!['.', 'h', 'i', 'n', 't']
}

/// The segment that a file name stands for.
pub open spec fn parse_segment(filename: Seq<char>) -> Option<SegmentView> {
    match without_suffix(filename, seq!['.', 'd', 'b']) {
        None => None,
        Some(stem) => match split_at_last(stem, '_') {
            None => None,
            Some((name, ts)) => match parse_number(ts, u64::MAX as nat) {
                None => None,
                Some(n) => Some(SegmentView { name, timestamp: n as u64 }),
            },
        },
    }
}

/// The path of a file in a directory.
pub open spec fn joined(dir: Seq<char>, file: Seq<char>) -> Seq<char> {
    if dir.len() == 0 || (file.len() > 0 && file[0] == '/') {
        file
    } else if dir.last() == '/' {
        dir + file
    } else {
        dir + seq!['/'] + file
    }
}

/// The segment comes back from the name of its file.
pub proof fn lemma_parse_filename(s: SegmentView)
    ensures
        parse_segment(segment_filename(s)) == Some(s),
{
    let ts = decimal(s.timestamp as nat);
    let stem = s.name + seq!['_'] + ts;
    let suffix = seq!['.', 'd', 'b'];
    let full = segment_filename(s);
    assert(full.skip(full.len() - 3) =~= suffix);
    assert(full.take(full.len() - 3) =~= stem);
    lemma_parse_decimal(s.timestamp as nat, u64::MAX as nat);
    assert forall|i: int| 0 <= i < ts.len() implies #[trigger] ts[i] != '_' by {
        assert(is_digit(ts[i]));
    }
    lemma_split_at_last(s.name, ts, '_');
}

/// Segments with different names or timestamps have different files.
pub proof fn lemma_filename_injective(a: SegmentView, b: SegmentView)
    requires
        segment_filename(a) == segment_filename(b),
    ensures
        a == b,
{
    lemma_parse_filename(a);
    lemma_parse_filename(b);
}

/// The file of a segment is never the hint file of one.
pub proof fn lemma_filename_no_hint(a: SegmentView, b: SegmentView)
    ensures
        segment_filename(a) != segment_hint_filename(b),
{
    assert(segment_filename(a).last() == 'b');
    assert(segment_hint_filename(b).last() == 't');
}

/// Segments with different timestamps have different hint files.
pub proof fn lemma_hint_filename_injective(a: SegmentView, b: SegmentView)
    requires
        segment_hint_filename(a) == segment_hint_filename(b),
    ensures
        a == b,
{
    let fa = segment_hint_filename(a);
    let fb = segment_hint_filename(b);
    let n = fa.len() - 5;
    assert(segment_filename(a) =~= fa.take(n) + seq!['.', 'd', 'b']);
    assert(segment_filename(b) =~= fb.take(n) + seq!['.', 'd', 'b']);
    lemma_filename_injective(a, b);
}

/// `s` with `x` put in after the last one whose timestamp is not larger.
pub open spec fn insert_by_timestamp(s: Seq<SegmentView>, x: SegmentView) -> Seq<SegmentView>
    decreases s.len(),
{
    if s.len() == 0 || s.last().timestamp <= x.timestamp {
        s.push(x)
    } else {
        insert_by_timestamp(s.drop_last(), x).push(s.last())
    }
}

/// The segments of `db_name` among files with these names, the oldest first.
pub open spec fn segments_of(names: Seq<Seq<char>>, db_name: Seq<char>) -> Seq<SegmentView>
    decreases names.len(),
{
    if names.len() == 0 {
        Seq::empty()
    } else {
        let before = segments_of(names.drop_last(), db_name);
        match parse_segment(names.last()) {
            Some(s) => if s.name == db_name {
                insert_by_timestamp(before, s)
            } else {
                before
            },
            None => before,
        }
    }
}

/// The segments are in the order of their timestamps.
pub open spec fn by_timestamp(s: Seq<SegmentView>) -> bool {
    forall|i: int, j: int|
        0 <= i <= j < s.len() ==> (#[trigger] s[i]).timestamp <= (#[trigger] s[j]).timestamp
}

proof fn lemma_insert_by_timestamp(s: Seq<SegmentView>, x: SegmentView)
    requires
        by_timestamp(s),
    ensures
        by_timestamp(insert_by_timestamp(s, x)),
        insert_by_timestamp(s, x).len() == s.len() + 1,
        forall|y: SegmentView| #[trigger]
            insert_by_timestamp(s, x).contains(y) <==> s.contains(y) || y == x,
    decreases s.len(),
{
    let r = insert_by_timestamp(s, x);
    if s.len() == 0 || s.last().timestamp <= x.timestamp {
        assert forall|y: SegmentView| #[trigger] r.contains(y) <==> s.contains(y) || y == x by {
            if s.contains(y) {
                assert(r[s.index_of(y)] == y);
            }
            if y == x {
                assert(r[s.len() as int] == y);
            }
        }
    } else {
        let t = insert_by_timestamp(s.drop_last(), x);
        lemma_insert_by_timestamp(s.drop_last(), x);
        assert forall|i: int, j: int| 0 <= i <= j < r.len() implies (#[trigger] r[i]).timestamp <= (
        #[trigger] r[j]).timestamp by {
            if j == t.len() && i < j {
                assert(t.contains(t[i]));
                if s.drop_last().contains(t[i]) {
                    assert(s[s.drop_last().index_of(t[i])] == t[i]);
                }
            }
        }
        assert forall|y: SegmentView| #[trigger] r.contains(y) <==> s.contains(y) || y == x by {
            if r.contains(y) {
                let i = r.index_of(y);
                if i < t.len() {
                    assert(t.contains(y));
                    if s.drop_last().contains(y) {
                        assert(s[s.drop_last().index_of(y)] == y);
                    }
                } else {
                    assert(s[s.len() - 1] == y);
                }
            }
            if s.contains(y) {
                let i = s.index_of(y);
                if i < s.len() - 1 {
                    assert(s.drop_last()[i] == y);
                    assert(t.contains(y));
                    assert(r[t.index_of(y)] == y);
                } else {
                    assert(r[t.len() as int] == y);
                }
            }
            if y == x {
                assert(t.contains(y));
                assert(r[t.index_of(y)] == y);
            }
        }
    }
}

/// The segments found are in the order of their timestamps, and they are those
/// whose files are there.
pub proof fn lemma_segments_of(names: Seq<Seq<char>>, db_name: Seq<char>)
    ensures
        by_timestamp(segments_of(names, db_name)),
        forall|s: SegmentView| #[trigger]
            segments_of(names, db_name).contains(s) <==> s.name == db_name && exists|i: int|
                0 <= i < names.len() && parse_segment(#[trigger] names[i]) == Some(s),
    decreases names.len(),
{
    if names.len() > 0 {
        let init = names.drop_last();
        lemma_segments_of(init, db_name);
        let before = segments_of(init, db_name);
        let all = segments_of(names, db_name);
        let p = parse_segment(names.last());
        if p is Some && p->0.name == db_name {
            lemma_insert_by_timestamp(before, p->0);
        }
        assert forall|s: SegmentView| #[trigger] all.contains(s) <==> s.name == db_name && exists|
            i: int,
        |
            0 <= i < names.len() && parse_segment(#[trigger] names[i]) == Some(s) by {
            if all.contains(s) {
                if before.contains(s) {
                    let i = choose|i: int|
                        0 <= i < init.len() && parse_segment(#[trigger] init[i]) == Some(s);
                    assert(parse_segment(names[i]) == Some(s));
                } else {
                    assert(parse_segment(names[names.len() - 1]) == Some(s));
                }
            }
            if s.name == db_name && exists|i: int|
                0 <= i < names.len() && parse_segment(#[trigger] names[i]) == Some(s) {
                let i = choose|i: int|
                    0 <= i < names.len() && parse_segment(#[trigger] names[i]) == Some(s);
                if i < init.len() {
                    assert(parse_segment(init[i]) == Some(s));
                    assert(before.contains(s));
                }
            }
        }
    } else {
        assert(segments_of(names, db_name) =~= Seq::<SegmentView>::empty());
    }
}

/// Whether every file that stands for a segment of `db_name` has the usual name of
/// that segment.
pub open spec fn usual_names(names: Seq<Seq<char>>, db_name: Seq<char>) -> bool {
    forall|i: int|
        0 <= i < names.len() ==> match parse_segment(#[trigger] names[i]) {
            Some(s) => s.name == db_name ==> names[i] == segment_filename(s),
            None => true,
        }
}

proof fn lemma_insert_no_duplicates(s: Seq<SegmentView>, x: SegmentView)
    requires
        s.no_duplicates(),
        !s.contains(x),
        by_timestamp(s),
    ensures
        insert_by_timestamp(s, x).no_duplicates(),
    decreases s.len(),
{
    let r = insert_by_timestamp(s, x);
    if s.len() == 0 || s.last().timestamp <= x.timestamp {
        assert forall|i: int, j: int| 0 <= i < r.len() && 0 <= j < r.len() && i != j implies r[i]
            != r[j] by {
            if i == s.len() {
                assert(s.contains(s[j]));
            }
            if j == s.len() {
                assert(s.contains(s[i]));
            }
        }
    } else {
        let init = s.drop_last();
        assert forall|i: int| 0 <= i < init.len() implies #[trigger] init[i] != x by {
            assert(s.contains(s[i]));
        }
        assert(!init.contains(x));
        lemma_insert_no_duplicates(init, x);
        lemma_insert_by_timestamp(init, x);
        let t = insert_by_timestamp(init, x);
        assert(!t.contains(s.last())) by {
            assert(s.contains(s[s.len() - 1]));
            if init.contains(s.last()) {
                let i = init.index_of(s.last());
                assert(s[i] == s[s.len() - 1]);
            }
        }
        assert forall|i: int, j: int| 0 <= i < r.len() && 0 <= j < r.len() && i != j implies r[i]
            != r[j] by {
            if i == t.len() {
                assert(t.contains(t[j]));
            }
            if j == t.len() {
                assert(t.contains(t[i]));
            }
        }
    }
}

/// Where all names are the usual ones, no segment is found twice.
pub proof fn lemma_segments_no_duplicates(names: Seq<Seq<char>>, db_name: Seq<char>)
    requires
        usual_names(names, db_name),
        names.no_duplicates(),
    ensures
        segments_of(names, db_name).no_duplicates(),
    decreases names.len(),
{
    if names.len() > 0 {
        let init = names.drop_last();
        assert forall|i: int| 0 <= i < init.len() implies match parse_segment(
            #[trigger] init[i],
        ) {
            Some(s) => s.name == db_name ==> init[i] == segment_filename(s),
            None => true,
        } by {
            assert(init[i] == names[i]);
        }
        lemma_segments_no_duplicates(init, db_name);
        lemma_segments_of(init, db_name);
        let before = segments_of(init, db_name);
        if let Some(s) = parse_segment(names.last()) {
            if s.name == db_name {
                assert(names[names.len() - 1] == segment_filename(s));
                if before.contains(s) {
                    let i = choose|i: int|
                        0 <= i < init.len() && parse_segment(#[trigger] init[i]) == Some(s);
                    assert(names[i] == segment_filename(s));
                }
                lemma_insert_no_duplicates(before, s);
            }
        }
    }
}

/// Segments of one database that are in the order of their timestamps, each once,
/// are determined by which they are.
pub proof fn lemma_segments_unique(a: Seq<SegmentView>, b: Seq<SegmentView>, name: Seq<char>)
    requires
        by_timestamp(a),
        by_timestamp(b),
        a.no_duplicates(),
        b.no_duplicates(),
        forall|s: SegmentView| #[trigger] a.contains(s) ==> s.name == name,
        forall|s: SegmentView| #[trigger] a.contains(s) <==> b.contains(s),
    ensures
        a == b,
    decreases a.len(),
{
    if a.len() == 0 {
        if b.len() > 0 {
            assert(b.contains(b[0]));
            assert(a.contains(b[0]));
        }
        assert(a =~= b);
    } else {
        let x = a.last();
        assert(a.contains(a[a.len() - 1]));
        assert(b.contains(x));
        let i = b.index_of(x);
        let y = b.last();
        assert(b.contains(b[b.len() - 1]));
        assert(a.contains(y));
        let j = a.index_of(y);
        assert(b[i].timestamp <= b[b.len() - 1].timestamp);
        assert(a[j].timestamp <= a[a.len() - 1].timestamp);
        assert(x == y);
        let a2 = a.drop_last();
        let b2 = b.drop_last();
        assert forall|s: SegmentView| #[trigger] a2.contains(s) implies s.name == name by {
            assert(a[a2.index_of(s)] == s);
            assert(a.contains(s));
        }
        assert forall|s: SegmentView| #[trigger] a2.contains(s) <==> b2.contains(s) by {
            if a2.contains(s) {
                let p = a2.index_of(s);
                assert(a[p] == s);
                assert(a.contains(s));
                let q = b.index_of(s);
                assert(s != x);
                assert(b2[q] == s);
            }
            if b2.contains(s) {
                let p = b2.index_of(s);
                assert(b[p] == s);
                assert(b.contains(s));
                assert(a.contains(s));
                let q = a.index_of(s);
                assert(s != y);
                assert(a2[q] == s);
            }
        }
        lemma_segments_unique(a2, b2, name);
        assert(a =~= a2.push(x));
        assert(b =~= b2.push(y));
    }
}

/// What names the segments of a vector.
pub open spec fn segment_views(v: Seq<Segment>) -> Seq<SegmentView> {
    v.map_values(|s: Segment| s@)
}

fn joined_path(dir: &str, file: &str) -> (p: String)
    ensures
        p@ == joined(dir@, file@),
{
    let d = chars_of(dir);
    let f = chars_of(file);
    if d.len() == 0 || (f.len() > 0 && f[0] == '/') {
        String::from_str(file)
    } else if d[d.len() - 1] == '/' {
        String::from_str(dir).concat(file)
    } else {
        proof {
            reveal_strlit("/");
        }
        let p = String::from_str(dir).concat("/").concat(file);
        assert(p@ =~= joined(dir@, file@));
        p
    }
}

impl Segment {
    /// The segment of `segment_name` that begins at `timestamp`.
    pub fn new(segment_name: &str, timestamp: u64) -> (s: Self)
        ensures
            s@ == (SegmentView { name: segment_name@, timestamp }),
    {
        Segment { segment_name: String::from_str(segment_name), timestamp }
    }

    /// A copy of the segment's name and timestamp.
    pub fn copy(&self) -> (s: Self)
        ensures
            s@ == self@,
    {
        Segment { segment_name: self.segment_name.clone(), timestamp: self.timestamp }
    }

    fn stem(&self) -> (s: String)
        ensures
            s@ == self.segment_name@ + seq!['_'] + decimal(self.timestamp as nat),
    {
        proof {
            reveal_strlit("_");
        }
        let ts = decimal_string(self.timestamp);
        let s = self.segment_name.clone().concat("_").concat(ts.as_str());
        assert(s@ =~= self.segment_name@ + seq!['_'] + decimal(self.timestamp as nat));
        s
    }

    /// The name of the segment's file.
    pub fn filename(&self) -> (s: String)
        ensures
            s@ == segment_filename(self@),
    {
        proof {
            reveal_strlit(".db");
        }
        let s = self.stem().concat(".db");
        assert(s@ =~= segment_filename(self@));
        s
    }

    /// The name of the segment's hint file.
    pub fn hint_filename(&self) -> (s: String)
        ensures
            s@ == segment_hint_filename(self@),
    {
        proof {
            reveal_strlit(".hint");
        }
        let s = self.stem().concat(".hint");
        assert(s@ =~= segment_hint_filename(self@));
        s
    }

    /// The path of the segment's file in `dir`.
    pub fn path(&self, dir: &str) -> (p: String)
        ensures
            p@ == joined(dir@, segment_filename(self@)),
    {
        joined_path(dir, self.filename().as_str())
    }

    /// The path of the segment's hint file in `dir`.
    pub fn hint_path(&self, dir: &str) -> (p: String)
        ensures
            p@ == joined(dir@, segment_hint_filename(self@)),
    {
        joined_path(dir, self.hint_filename().as_str())
    }

    /// The segment that a file name stands for.
    pub fn parse(filename: &str) -> (r: Option<Self>)
        ensures
            match r {
                Some(s) => parse_segment(filename@) == Some(s@),
                None => parse_segment(filename@) is None,
            },
    {
        proof {
            reveal_strlit(".db");
            assert(".db"@ =~= seq!['.', 'd', 'b']);
        }
        let stem = match strip_suffix(filename, ".db") {
            Some(s) => s,
            None => {
                return None;
            },
        };
        match rsplit_once(stem, '_') {
            Some((name, ts)) => match parse_u64(ts) {
                Some(timestamp) => Some(
                    Segment { segment_name: String::from_str(name), timestamp },
                ),
                None => None,
            },
            None => None,
        }
    }
}

fn insert_sorted(segments: &mut Vec<Segment>, x: Segment)
    ensures
        segment_views(final(segments)@) == insert_by_timestamp(segment_views(old(segments)@), x@),
{
    let mut i: usize = segments.len();
    let ghost views = segment_views(segments@);
    let ghost tail = Seq::<SegmentView>::empty();
    assert(views.take(i as int) =~= views);
    assert(insert_by_timestamp(views, x@) + tail =~= insert_by_timestamp(views, x@));
    assert(tail =~= views.skip(i as int));
    while i > 0 && segments[i - 1].timestamp > x.timestamp
        invariant
            i <= segments@.len(),
            views == segment_views(segments@),
            insert_by_timestamp(views, x@) == insert_by_timestamp(views.take(i as int), x@)
                + views.skip(i as int),
        decreases i,
    {
        assert(views[i - 1] == segments@[i - 1]@);
        assert(views.take(i as int).last() == views[i - 1]);
        assert(views.take(i as int).drop_last() =~= views.take(i - 1));
        assert(insert_by_timestamp(views.take(i - 1), x@).push(views[i - 1]) + views.skip(i as int)
            =~= insert_by_timestamp(views.take(i - 1), x@) + views.skip(i - 1));
        i = i - 1;
    }
    let ghost y = x@;
    proof {
        if i > 0 {
            assert(views[i - 1] == segments@[i - 1]@);
            assert(views.take(i as int).last() == views[i - 1]);
        }
    }
    segments.insert(i, x);
    assert(segment_views(segments@) =~= views.insert(i as int, y));
    assert(views.insert(i as int, y) =~= views.take(i as int).push(y) + views.skip(i as int));
}

/// The segments of `db_name` in a directory, the oldest first.
pub fn get_segments(dir: &Directory, db_name: &str) -> (segments: Vec<Segment>)
    requires
        dir.wf(),
    ensures
        segment_views(segments@) == segments_of(keys_in_order(dir@), db_name@),
{
    proof {
        dir.lemma_names();
    }
    let names = dir.list();
    let mut segments: Vec<Segment> = Vec::new();
    assert(segment_views(segments@) =~= Seq::<SegmentView>::empty());
    assert(dir.names().take(0) =~= Seq::<Seq<char>>::empty());
    assert(dir.names().len() == names@.len()) by {
        assert(string_views(names@).len() == names@.len());
    }
    for i in 0..names.len()
        invariant
            string_views(names@) == dir.names(),
            segment_views(segments@) == segments_of(dir.names().take(i as int), db_name@),
    {
        assert(dir.names()[i as int] == names@[i as int]@) by {
            assert(string_views(names@)[i as int] == names@[i as int]@);
        }
        assert(dir.names().take(i + 1).drop_last() =~= dir.names().take(i as int));
        if let Some(segment) = Segment::parse(names[i].as_str()) {
            if same(segment.segment_name.as_str(), db_name) {
                insert_sorted(&mut segments, segment);
            }
        }
    }
    assert(dir.names().take(names@.len() as int) =~= dir.names());
    segments
}

/// The segment of `db_name` with the latest timestamp.
pub fn get_last_segment(dir: &Directory, db_name: &str) -> (r: Option<Segment>)
    requires
        dir.wf(),
    ensures
        match r {
            Some(s) => {
                let all = segments_of(keys_in_order(dir@), db_name@);
                all.len() > 0 && s@ == all.last()
            },
            None => segments_of(keys_in_order(dir@), db_name@).len() == 0,
        },
{
    let mut segments = get_segments(dir, db_name);
    let ghost views = segment_views(segments@);
    assert(views.len() == segments@.len());
    match segments.pop() {
        Some(s) => {
            assert(views.last() == s@);
            Some(s)
        },
        None => None,
    }
}

/// The file of a segment is named `<name>_<timestamp>.db`, and its hint file
/// `<name>_<timestamp>.hint`.
pub proof fn lemma_segment_names(s: SegmentView)
    ensures
        segment_filename(s) == s.name + "_"@ + decimal(s.timestamp as nat) + ".db"@,
        segment_hint_filename(s) == s.name + "_"@ + decimal(s.timestamp as nat) + ".hint"@,
{
    reveal_strlit("_");
    reveal_strlit(".db");
    reveal_strlit(".hint");
    assert("_"@ =~= seq!['_']);
    assert(".db"@ =~= seq!['.', 'd', 'b']);
    assert(".hint"@ =~= seq!['.', 'h', 'i', 'n', 't']);
}

/// A file name that stands for a segment is the name of the segment, an underscore, the
/// timestamp as a number, and `.db`. A name that does not end so, or has no underscore, or
/// no such number between them, stands for none.
pub proof fn lemma_parsed_segment(f: Seq<char>, s: SegmentView)
    ensures
        parse_segment(f) == Some(s) <==> exists|ts: Seq<char>|
            {
                &&& f == #[trigger] (s.name.push('_') + ts) + ".db"@
                &&& !ts.contains('_')
                &&& parse_number(ts, u64::MAX as nat) == Some(s.timestamp as nat)
            },
{
    reveal_strlit(".db");
    let end = seq!['.', 'd', 'b'];
    assert(".db"@ =~= end);
    lemma_stripped(f, end);
    if parse_segment(f) == Some(s) {
        let stem = without_suffix(f, end)->0;
        lemma_split_parts(stem, '_');
        let (_, ts) = split_at_last(stem, '_')->0;
        assert(f == (s.name.push('_') + ts) + ".db"@);
    }
    if exists|ts: Seq<char>|
        {
            &&& f == #[trigger] (s.name.push('_') + ts) + ".db"@
            &&& !ts.contains('_')
            &&& parse_number(ts, u64::MAX as nat) == Some(s.timestamp as nat)
        } {
        let ts = choose|ts: Seq<char>|
            {
                &&& f == #[trigger] (s.name.push('_') + ts) + ".db"@
                &&& !ts.contains('_')
                &&& parse_number(ts, u64::MAX as nat) == Some(s.timestamp as nat)
            };
        let stem = s.name.push('_') + ts;
        lemma_stripped(stem, end);
        lemma_split_at_last(s.name, ts, '_');
        assert(stem =~= s.name + seq!['_'] + ts);
    }
}

/// The path of a file in a directory ends with the file. One slash stands between the two,
/// whether the directory ends with one or not. Without a directory, and for a file that
/// begins with a slash, the path is the file alone.
pub proof fn lemma_joined(dir: Seq<char>, file: Seq<char>)
    ensures
        file.is_suffix_of(joined(dir, file)),
        joined(Seq::empty(), file) == file,
        file.len() > 0 && file[0] == '/' ==> joined(dir, file) == file,
        dir.len() > 0 && dir.last() != '/' && !(file.len() > 0 && file[0] == '/') ==> joined(
            dir,
            file,
        ) == dir + "/"@ + file && joined(dir + "/"@, file) == joined(dir, file),
{
    reveal_strlit("/");
    assert("/"@ =~= seq!['/']);
    let p = joined(dir, file);
    assert(file =~= p.subrange(p.len() - file.len(), p.len() as int));
    assert((dir + "/"@).last() == '/');
}

} // verus!
