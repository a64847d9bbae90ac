use vstd::prelude::*;
use vstd::string::StrSliceExecFns;

use crate::translation::{is_bool_like, is_clock, subinfo, SignalInfo, SignalMeta, SignalValue, ValueKind};
use crate::translators::{flat_view, info_of, translation, value_view, FlatField, TranslationError, Translator};
use crate::wave_container::{strings_eq, strings_view};

verus! {

/// A path below the root of a signal, as sequences of characters.
pub type PathView = Seq<Seq<char>>;

/// A decoded field value: absent, or a string with its kind.
pub type ValueView = Option<(Seq<char>, ValueKind)>;

/// A value held on the canvas from its pixel until the pixel of the next entry.
#[derive(Clone, Debug)]
pub struct DrawnRegion {
    pub inner: Option<(String, ValueKind)>,
    /// True if a transition should be drawn even if there is no change in the value
    /// between the previous and next pixels. Only used by the bool drawing logic to
    /// draw a vertical line and prevent apparent aliasing
    pub force_anti_alias: bool,
}

impl DrawnRegion {
    pub open spec fn view(&self) -> (ValueView, bool) {
        (value_view(self.inner), self.force_anti_alias)
    }
}

/// List of values to draw for a signal. It is an ordered list of values that should
/// be drawn at the *start time* until the *start time* of the next value
#[derive(Clone, Debug)]
pub struct DrawingCommands {
    pub is_bool: bool,
    pub values: Vec<(i64, DrawnRegion)>,
}

/// The entries of a list of drawing commands: pixel, value and anti-alias flag.
pub open spec fn entries_view(v: Seq<(i64, DrawnRegion)>) -> Seq<(int, ValueView, bool)> {
    v.map_values(|e: (i64, DrawnRegion)| (e.0 as int, value_view(e.1.inner), e.1.force_anti_alias))
}

impl DrawingCommands {
    pub open spec fn entries(&self) -> Seq<(int, ValueView, bool)> {
        entries_view(self.values@)
    }

    pub fn new_bool() -> (r: Self)
        ensures
            r.is_bool,
            r.values@.len() == 0,
    {
        DrawingCommands { values: Vec::new(), is_bool: true }
    }

    pub fn new_wide() -> (r: Self)
        ensures
            !r.is_bool,
            r.values@.len() == 0,
    {
        DrawingCommands { values: Vec::new(), is_bool: false }
    }

    pub fn push(&mut self, val: (i64, DrawnRegion))
        ensures
            final(self).is_bool == old(self).is_bool,
            final(self).values@ == old(self).values@.push(val),
    {
        self.values.push(val)
    }
}

/// The decoded fields of a signal at one sample pixel. `changed` tells whether the
/// signal changed since the previous sample pixel; `fields` is empty where the
/// pixel has nothing to draw.
#[derive(Clone, Debug)]
pub struct Row {
    pub pixel: i64,
    pub changed: bool,
    pub fields: Vec<FlatField>,
}

/// A row as the pixel, whether the signal changed, and the fields.
pub type RowView = (int, bool, Seq<(PathView, ValueView)>);

pub open spec fn row_view(r: Row) -> RowView {
    (r.pixel as int, r.changed, flat_view(r.fields@))
}

pub open spec fn rows_view(rows: Seq<Row>) -> Seq<RowView> {
    rows.map_values(|r: Row| row_view(r))
}

/// The value of the first field at path `p`, if any field has that path.
pub open spec fn lookup(fs: Seq<(PathView, ValueView)>, p: PathView) -> Option<ValueView>
    decreases fs.len(),
{
    if fs.len() == 0 {
        None
    } else if fs[0].0 == p {
        Some(fs[0].1)
    } else {
        lookup(fs.drop_first(), p)
    }
}

/// Whether no two fields share a path.
pub open spec fn distinct_paths(fs: Seq<(PathView, ValueView)>) -> bool {
    forall|a: int, b: int| 0 <= a < b < fs.len() ==> fs[a].0 != fs[b].0
}

/// The value that path `p` had at the latest row before row `j` that holds it.
pub open spec fn last_seen(rows: Seq<RowView>, j: int, p: PathView) -> Option<ValueView>
    decreases j,
{
    if j <= 0 {
        None
    } else {
        match lookup(rows[j - 1].2, p) {
            Some(v) => Some(v),
            None => last_seen(rows, j - 1, p),
        }
    }
}

/// Whether row `j` marks a transition of the root field: `p` is the root path and
/// the signal changed since the previous sample pixel.
pub open spec fn root_transition(rows: Seq<RowView>, j: int, p: PathView) -> bool {
    p.len() == 0 && rows[j].1
}

/// Whether row `j` draws an entry for path `p`: the path is there and its value
/// differs from the one last seen, or this is the last row, or the root signal
/// changed.
pub open spec fn emits(rows: Seq<RowView>, j: int, p: PathView) -> bool {
    match lookup(rows[j].2, p) {
        Some(v) => last_seen(rows, j, p) != Some(v) || j == rows.len() - 1 || root_transition(
            rows,
            j,
            p,
        ),
        None => false,
    }
}

/// The entry that row `j` draws for path `p`: the anti-alias flag is set where only
/// a root transition makes it draw.
pub open spec fn entry(rows: Seq<RowView>, j: int, p: PathView) -> (int, ValueView, bool) {
    let v = lookup(rows[j].2, p).unwrap();
    (rows[j].0, v, root_transition(rows, j, p) && last_seen(rows, j, p) == Some(v))
}

/// The entries drawn for path `p` by the rows before row `j`, in order.
pub open spec fn commands_upto(rows: Seq<RowView>, j: int, p: PathView) -> Seq<(int, ValueView, bool)>
    decreases j,
{
    if j <= 0 {
        Seq::empty()
    } else if emits(rows, j - 1, p) {
        commands_upto(rows, j - 1, p).push(entry(rows, j - 1, p))
    } else {
        commands_upto(rows, j - 1, p)
    }
}

/// The entries drawn for path `p` by all rows.
pub open spec fn commands(rows: Seq<RowView>, p: PathView) -> Seq<(int, ValueView, bool)> {
    commands_upto(rows, rows.len() as int, p)
}

/// Whether some row holds a field at path `p`.
pub open spec fn path_occurs(rows: Seq<RowView>, p: PathView) -> bool {
    exists|j: int| 0 <= j < rows.len() && #[trigger] lookup(rows[j].2, p).is_some()
}

/// Whether row `j` marks a rising clock edge at path `p`: it draws a `1` for a
/// clock, and is neither the first nor the last row.
pub open spec fn clock_edge(rows: Seq<RowView>, info: SignalInfo, j: int, p: PathView) -> bool {
    &&& emits(rows, j, p)
    &&& is_clock(subinfo(info, p))
    &&& match lookup(rows[j].2, p) {
        Some(Some((s, _))) => s == seq!['1'],
        _ => false,
    }
    &&& j != 0
    &&& j != rows.len() - 1
}

/// The clock edges of the first `f` fields of row `j`, in field order.
pub open spec fn row_edges(rows: Seq<RowView>, info: SignalInfo, j: int, f: int) -> Seq<int>
    decreases f,
{
    if f <= 0 {
        Seq::empty()
    } else if clock_edge(rows, info, j, rows[j].2[f - 1].0) {
        row_edges(rows, info, j, f - 1).push(rows[j].0)
    } else {
        row_edges(rows, info, j, f - 1)
    }
}

/// The clock edges of the rows before row `j`, in pixel order.
pub open spec fn edges_upto(rows: Seq<RowView>, info: SignalInfo, j: int) -> Seq<int>
    decreases j,
{
    if j <= 0 {
        Seq::empty()
    } else {
        edges_upto(rows, info, j - 1) + row_edges(rows, info, j - 1, rows[j - 1].2.len() as int)
    }
}


/// The index of the first field at path `p`.
fn lookup_field(fields: &Vec<FlatField>, p: &Vec<String>) -> (r: Option<usize>)
    ensures
        match r {
            Some(i) => i < fields.len() && lookup(flat_view(fields@), strings_view(p@)) == Some(
                flat_view(fields@)[i as int].1,
            ) && flat_view(fields@)[i as int].0 == strings_view(p@),
            None => lookup(flat_view(fields@), strings_view(p@)).is_none(),
        },
{
    let ghost fs = flat_view(fields@);
    let ghost pv = strings_view(p@);
    let mut i: usize = 0;
    assert(fs.subrange(0, fs.len() as int) =~= fs);
    while i < fields.len()
        invariant
            fs == flat_view(fields@),
            pv == strings_view(p@),
            i <= fields.len(),
            lookup(fs, pv) == lookup(fs.subrange(i as int, fs.len() as int), pv),
        decreases fields.len() - i,
    {
        let ghost rest = fs.subrange(i as int, fs.len() as int);
        assert(rest[0] == fs[i as int]);
        assert(rest.drop_first() =~= fs.subrange(i + 1, fs.len() as int));
        if strings_eq(&fields[i].path, p) {
            return Some(i);
        }
        i += 1;
    }
    None
}

/// Whether two field values are the same.
fn values_eq(a: &Option<(String, ValueKind)>, b: &Option<(String, ValueKind)>) -> (r: bool)
    ensures
        r == (value_view(*a) == value_view(*b)),
{
    match (a, b) {
        (Some((sa, ka)), Some((sb, kb))) => *sa == *sb && *ka == *kb,
        (None, None) => true,
        _ => false,
    }
}

fn clone_value(v: &Option<(String, ValueKind)>) -> (r: Option<(String, ValueKind)>)
    ensures
        value_view(r) == value_view(*v),
{
    match v {
        Some((s, k)) => Some((s.clone(), *k)),
        None => None,
    }
}

/// The drawing commands of path `p` over all rows, and for each row whether it
/// drew an entry.
fn commands_for_path(rows: &Vec<Row>, p: &Vec<String>, is_bool: bool) -> (r: (
    DrawingCommands,
    Vec<bool>,
))
    ensures
        r.0.is_bool == is_bool,
        r.0.entries() == commands(rows_view(rows@), strings_view(p@)),
        r.1@.len() == rows_view(rows@).len(),
        forall|j: int| 0 <= j < rows_view(rows@).len() ==> r.1@[j] == emits(rows_view(rows@), j, strings_view(p@)),
{
    let ghost pv = strings_view(p@);
    let mut cmds = DrawingCommands { is_bool, values: Vec::new() };
    let mut flags: Vec<bool> = Vec::new();
    let mut prev: Option<Option<(String, ValueKind)>> = None;
    let is_root = p.len() == 0;
    let mut j: usize = 0;
    assert(cmds.entries() =~= Seq::<(int, ValueView, bool)>::empty());
    while j < rows.len()
        invariant
            pv == strings_view(p@),
            is_root == (pv.len() == 0),
            j <= rows.len(),
            cmds.is_bool == is_bool,
            cmds.entries() == commands_upto(rows_view(rows@), j as int, pv),
            flags@.len() == j,
            forall|k: int| 0 <= k < j ==> flags@[k] == emits(rows_view(rows@), k, pv),
            match prev {
                Some(v) => last_seen(rows_view(rows@), j as int, pv) == Some(value_view(v)),
                None => last_seen(rows_view(rows@), j as int, pv).is_none(),
            },
        decreases rows.len() - j,
    {
        let row = &rows[j];
        let ghost before = cmds.entries();
        match lookup_field(&row.fields, p) {
            Some(idx) => {
                let v = &row.fields[idx].value;
                let same = match &prev {
                    Some(pv) => values_eq(pv, v),
                    None => false,
                };
                let root_change = is_root && row.changed;
                assert(flat_view(row.fields@)[idx as int].1 == value_view(*v));
                if !same || j == rows.len() - 1 || root_change {
                    let region = DrawnRegion {
                        inner: clone_value(v),
                        force_anti_alias: root_change && same,
                    };
                    cmds.push((row.pixel, region));
                    assert(cmds.entries() =~= before.push(entry(rows_view(rows@), j as int, pv)));
                    flags.push(true);
                } else {
                    flags.push(false);
                }
                prev = Some(clone_value(v));
            },
            None => {
                flags.push(false);
            },
        }
        j += 1;
    }
    (cmds, flags)
}


proof fn lemma_lookup_some(fs: Seq<(PathView, ValueView)>, p: PathView, f: int)
    requires
        0 <= f < fs.len(),
        fs[f].0 == p,
    ensures
        lookup(fs, p).is_some(),
    decreases f,
{
    if fs[0].0 != p {
        assert(fs.drop_first()[f - 1] == fs[f]);
        lemma_lookup_some(fs.drop_first(), p, f - 1);
    }
}

proof fn lemma_lookup_none(fs: Seq<(PathView, ValueView)>, p: PathView)
    requires
        forall|f: int| 0 <= f < fs.len() ==> fs[f].0 != p,
    ensures
        lookup(fs, p).is_none(),
    decreases fs.len(),
{
    if fs.len() > 0 {
        assert forall|f: int| 0 <= f < fs.drop_first().len() implies fs.drop_first()[f].0 != p by {
            assert(fs.drop_first()[f] == fs[f + 1]);
        }
        lemma_lookup_none(fs.drop_first(), p);
    }
}

/// A path has a field value somewhere exactly when it is the path of some field of some row.
proof fn lemma_occurs_iff(rows: Seq<RowView>, p: PathView)
    ensures
        path_occurs(rows, p) <==> exists|j: int, f: int|
            0 <= j < rows.len() && 0 <= f < rows[j].2.len() && #[trigger] rows[j].2[f].0 == p,
{
    if path_occurs(rows, p) {
        let j = choose|j: int| 0 <= j < rows.len() && #[trigger] lookup(rows[j].2, p).is_some();
        if forall|f: int| 0 <= f < rows[j].2.len() ==> rows[j].2[f].0 != p {
            lemma_lookup_none(rows[j].2, p);
        }
    }
    if exists|j: int, f: int|
        0 <= j < rows.len() && 0 <= f < rows[j].2.len() && #[trigger] rows[j].2[f].0 == p {
        let (j, f) = choose|j: int, f: int|
            0 <= j < rows.len() && 0 <= f < rows[j].2.len() && #[trigger] rows[j].2[f].0 == p;
        lemma_lookup_some(rows[j].2, p, f);
        assert(lookup(rows[j].2, p).is_some());
    }
}

fn clone_path(p: &Vec<String>) -> (r: Vec<String>)
    ensures
        strings_view(r@) == strings_view(p@),
{
    let r = p.clone();
    assert(strings_view(r@) =~= strings_view(p@)) by {
        assert(forall|k: int| 0 <= k < r@.len() ==> r@[k] == p@[k]);
    }
    r
}

/// The index of path `p` in a list of paths.
fn find_path(paths: &Vec<Vec<String>>, p: &Vec<String>) -> (r: Option<usize>)
    ensures
        match r {
            Some(k) => k < paths.len() && strings_view(paths@[k as int]@) == strings_view(p@),
            None => forall|k: int|
                0 <= k < paths.len() ==> strings_view(paths@[k]@) != strings_view(p@),
        },
{
    let mut k: usize = 0;
    while k < paths.len()
        invariant
            k <= paths.len(),
            forall|i: int| 0 <= i < k ==> strings_view(paths@[i]@) != strings_view(p@),
        decreases paths.len() - k,
    {
        if strings_eq(&paths[k], p) {
            return Some(k);
        }
        k += 1;
    }
    None
}

/// Whether `p` is one of `paths`.
pub open spec fn listed(paths: Seq<Vec<String>>, p: PathView) -> bool {
    exists|k: int| 0 <= k < paths.len() && strings_view(#[trigger] paths[k]@) == p
}

/// The distinct paths of the fields of all rows, in order of first appearance.
fn collect_paths(rows: &Vec<Row>) -> (r: Vec<Vec<String>>)
    ensures
        forall|a: int, b: int|
            0 <= a < b < r@.len() ==> strings_view(r@[a]@) != strings_view(r@[b]@),
        forall|k: int| 0 <= k < r@.len() ==> path_occurs(rows_view(rows@), strings_view(#[trigger] r@[k]@)),
        forall|p: PathView| path_occurs(rows_view(rows@), p) ==> listed(r@, p),
{
    let mut paths: Vec<Vec<String>> = Vec::new();
    let mut j: usize = 0;
    while j < rows.len()
        invariant
            j <= rows.len(),
            forall|a: int, b: int|
                0 <= a < b < paths@.len() ==> strings_view(paths@[a]@) != strings_view(paths@[b]@),
            forall|k: int|
                0 <= k < paths@.len() ==> path_occurs(rows_view(rows@), strings_view(#[trigger] paths@[k]@)),
            forall|jj: int, f: int|
                0 <= jj < j && 0 <= f < rows_view(rows@)[jj].2.len() ==> listed(
                    paths@,
                    #[trigger] rows_view(rows@)[jj].2[f].0,
                ),
        decreases rows.len() - j,
    {
        let fields = &rows[j].fields;
        let mut f: usize = 0;
        while f < fields.len()
            invariant
                j < rows.len(),
                fields == &rows@[j as int].fields,
                f <= fields.len(),
                forall|a: int, b: int|
                    0 <= a < b < paths@.len() ==> strings_view(paths@[a]@) != strings_view(
                        paths@[b]@,
                    ),
                forall|k: int|
                    0 <= k < paths@.len() ==> path_occurs(rows_view(rows@), strings_view(#[trigger] paths@[k]@)),
                forall|jj: int, ff: int|
                    0 <= jj < j && 0 <= ff < rows_view(rows@)[jj].2.len() ==> listed(
                        paths@,
                        #[trigger] rows_view(rows@)[jj].2[ff].0,
                    ),
                forall|ff: int|
                    0 <= ff < f ==> listed(paths@, #[trigger] rows_view(rows@)[j as int].2[ff].0),
            decreases fields.len() - f,
        {
            let ghost pv = strings_view(fields@[f as int].path@);
            assert(rows_view(rows@)[j as int].2[f as int].0 == pv);
            match find_path(&paths, &fields[f].path) {
                Some(k) => {
                    assert(strings_view(paths@[k as int]@) == pv);
                    assert(listed(paths@, pv));
                },
                None => {
                    proof {
                        lemma_lookup_some(rows_view(rows@)[j as int].2, pv, f as int);
                        assert(lookup(rows_view(rows@)[j as int].2, pv).is_some());
                    }
                    let ghost old_paths = paths@;
                    let np = clone_path(&fields[f].path);
                    paths.push(np);
                    assert(paths@[old_paths.len() as int] == np);
                    assert forall|k: int| 0 <= k < old_paths.len() implies paths@[k] == old_paths[k] by {}
                    assert forall|q: PathView| listed(old_paths, q) implies listed(paths@, q) by {
                        let k = choose|k: int| 0 <= k < old_paths.len() && strings_view(#[trigger] old_paths[k]@) == q;
                        assert(strings_view(paths@[k]@) == q);
                    }
                    assert(listed(paths@, pv)) by {
                        assert(strings_view(paths@[old_paths.len() as int]@) == pv);
                    }
                },
            }
            f += 1;
        }
        j += 1;
    }
    proof {
        assert forall|p: PathView| path_occurs(rows_view(rows@), p) implies listed(paths@, p) by {
            lemma_occurs_iff(rows_view(rows@), p);
            let (jj, ff) = choose|jj: int, ff: int|
                0 <= jj < rows_view(rows@).len() && 0 <= ff < rows_view(rows@)[jj].2.len() && #[trigger] rows_view(rows@)[jj].2[ff].0 == p;
        }
    }
    paths
}


/// Pixels as integers.
pub open spec fn pixels_view(v: Seq<i64>) -> Seq<int> {
    v.map_values(|x: i64| x as int)
}

/// The drawing commands of one signal: one list per field path, and the pixels
/// of its rising clock edges.
#[derive(Clone, Debug)]
pub struct SignalCommands {
    pub fields: Vec<(Vec<String>, DrawingCommands)>,
    pub clock_edges: Vec<i64>,
}

/// Every row holds each path at most once.
pub open spec fn rows_well_formed(rows: Seq<RowView>) -> bool {
    forall|j: int| 0 <= j < rows.len() ==> distinct_paths(#[trigger] rows[j].2)
}

/// What the commands of one signal hold, given its rows and the shape it decodes to:
/// one list for each path that occurs, none twice, each with the entries that the
/// rows draw for that path; and the clock edges in pixel order.
pub open spec fn signal_commands_spec(rows: Seq<RowView>, info: SignalInfo, r: SignalCommands) -> bool {
    &&& forall|a: int, b: int|
        0 <= a < b < r.fields@.len() ==> strings_view(r.fields@[a].0@) != strings_view(
            r.fields@[b].0@,
        )
    &&& forall|k: int|
        0 <= k < r.fields@.len() ==> path_occurs(rows, strings_view(#[trigger] r.fields@[k].0@))
    &&& forall|p: PathView|
        path_occurs(rows, p) ==> exists|k: int|
            0 <= k < r.fields@.len() && strings_view(#[trigger] r.fields@[k].0@) == p
    &&& forall|k: int|
        0 <= k < r.fields@.len() ==> (#[trigger] r.fields@[k].1).entries() == commands(
            rows,
            strings_view(r.fields@[k].0@),
        ) && r.fields@[k].1.is_bool == is_bool_like(subinfo(info, strings_view(r.fields@[k].0@)))
    &&& pixels_view(r.clock_edges@) == edges_upto(rows, info, rows.len() as int)
}

fn is_clock_info(i: Option<&SignalInfo>) -> (r: bool)
    ensures
        r == match i {
            Some(x) => is_clock(Some(*x)),
            None => false,
        },
{
    match i {
        Some(SignalInfo::Clock) => true,
        _ => false,
    }
}

fn is_one(v: &Option<(String, ValueKind)>) -> (r: bool)
    ensures
        r == match value_view(*v) {
            Some((s, _)) => s == seq!['1'],
            None => false,
        },
{
    match v {
        Some((s, _)) => {
            let t = s.as_str();
            if t.unicode_len() == 1 && t.get_char(0) == '1' {
                assert(s@ =~= seq!['1']);
                true
            } else {
                false
            }
        },
        None => false,
    }
}

/// Builds the drawing commands of one signal from its decoded rows.
pub fn commands_from_rows(rows: &Vec<Row>, info: &SignalInfo) -> (r: SignalCommands)
    requires
        rows_well_formed(rows_view(rows@)),
    ensures
        signal_commands_spec(rows_view(rows@), *info, r),
{
    let paths = collect_paths(rows);
    let mut fields: Vec<(Vec<String>, DrawingCommands)> = Vec::new();
    let mut flags: Vec<Vec<bool>> = Vec::new();
    let mut k: usize = 0;
    while k < paths.len()
        invariant
            k <= paths.len(),
            forall|p: PathView| path_occurs(rows_view(rows@), p) ==> listed(paths@, p),
            forall|i: int|
                0 <= i < paths@.len() ==> path_occurs(rows_view(rows@), strings_view(#[trigger] paths@[i]@)),
            fields@.len() == k,
            flags@.len() == k,
            forall|i: int|
                0 <= i < k ==> strings_view(#[trigger] fields@[i].0@) == strings_view(paths@[i]@),
            forall|i: int|
                0 <= i < k ==> (#[trigger] fields@[i].1).entries() == commands(
                    rows_view(rows@),
                    strings_view(paths@[i]@),
                ) && fields@[i].1.is_bool == is_bool_like(subinfo(*info, strings_view(paths@[i]@))),
            forall|i: int|
                0 <= i < k ==> (#[trigger] flags@[i])@.len() == rows_view(rows@).len() && forall|j: int|
                    0 <= j < rows_view(rows@).len() ==> flags@[i]@[j] == emits(
                        rows_view(rows@),
                        j,
                        strings_view(paths@[i]@),
                    ),
        decreases paths.len() - k,
    {
        let is_bool = match info.get_subinfo(&paths[k]) {
            Some(SignalInfo::Bool) => true,
            Some(SignalInfo::Clock) => true,
            _ => false,
        };
        let (c, fl) = commands_for_path(rows, &paths[k], is_bool);
        fields.push((clone_path(&paths[k]), c));
        flags.push(fl);
        k += 1;
    }
    let edges = clock_edges_of(rows, info, &paths, &flags);
    let r = SignalCommands { fields, clock_edges: edges };
    assert forall|p: PathView| path_occurs(rows_view(rows@), p) implies exists|i: int|
        0 <= i < r.fields@.len() && strings_view(#[trigger] r.fields@[i].0@) == p by {
        assert(listed(paths@, p));
        let i = choose|i: int| 0 <= i < paths@.len() && strings_view(#[trigger] paths@[i]@) == p;
        assert(strings_view(r.fields@[i].0@) == p);
    }
    assert forall|k: int| 0 <= k < r.fields@.len() implies path_occurs(
        rows_view(rows@),
        strings_view(#[trigger] r.fields@[k].0@),
    ) by {
        assert(strings_view(r.fields@[k].0@) == strings_view(paths@[k]@));
    }
    r
}

/// In a row whose paths are distinct, the lookup of the path of field `f` finds
/// that field.
proof fn lemma_lookup_at(fs: Seq<(PathView, ValueView)>, p: PathView, f: int)
    requires
        0 <= f < fs.len(),
        fs[f].0 == p,
        distinct_paths(fs),
    ensures
        lookup(fs, p) == Some(fs[f].1),
    decreases f,
{
    if f > 0 {
        assert(fs[0].0 != fs[f].0);
        let t = fs.drop_first();
        assert(t[f - 1] == fs[f]);
        assert(distinct_paths(t)) by {
            assert forall|a: int, b: int| 0 <= a < b < t.len() implies t[a].0 != t[b].0 by {
                assert(t[a] == fs[a + 1]);
                assert(t[b] == fs[b + 1]);
            }
        }
        lemma_lookup_at(t, p, f - 1);
    }
}


/// The rising clock edges of the rows, given the distinct paths that occur and,
/// for each path, which rows draw an entry for it.
fn clock_edges_of(rows: &Vec<Row>, info: &SignalInfo, paths: &Vec<Vec<String>>, flags: &Vec<Vec<bool>>) -> (r: Vec<i64>)
    requires
        rows_well_formed(rows_view(rows@)),
        flags@.len() == paths@.len(),
        forall|i: int|
            0 <= i < paths@.len() ==> (#[trigger] flags@[i])@.len() == rows_view(rows@).len() && forall|
                jj: int,
            |
                0 <= jj < rows_view(rows@).len() ==> flags@[i]@[jj] == emits(
                    rows_view(rows@),
                    jj,
                    strings_view(paths@[i]@),
                ),
        forall|p: PathView| path_occurs(rows_view(rows@), p) ==> listed(paths@, p),
    ensures
        pixels_view(r@) == edges_upto(rows_view(rows@), *info, rows@.len() as int),
{
    let mut edges: Vec<i64> = Vec::new();
    let mut j: usize = 0;
    let n = rows.len();
    while j < n
        invariant
            n == rows.len(),
            j <= n,
            rows_well_formed(rows_view(rows@)),
            flags@.len() == paths@.len(),
            forall|i: int|
                0 <= i < paths@.len() ==> (#[trigger] flags@[i])@.len() == rows_view(rows@).len() && forall|
                    jj: int,
                |
                    0 <= jj < rows_view(rows@).len() ==> flags@[i]@[jj] == emits(
                        rows_view(rows@),
                        jj,
                        strings_view(paths@[i]@),
                    ),
            forall|p: PathView| path_occurs(rows_view(rows@), p) ==> listed(paths@, p),
            pixels_view(edges@) == edges_upto(rows_view(rows@), *info, j as int),
        decreases n - j,
    {
        let row = &rows[j];
        let mut f: usize = 0;
        while f < row.fields.len()
            invariant
                n == rows.len(),
                j < n,
                rows_well_formed(rows_view(rows@)),
                row == &rows@[j as int],
                f <= row.fields.len(),
                flags@.len() == paths@.len(),
                forall|i: int|
                    0 <= i < paths@.len() ==> (#[trigger] flags@[i])@.len() == rows_view(rows@).len() && forall|
                        jj: int,
                    |
                        0 <= jj < rows_view(rows@).len() ==> flags@[i]@[jj] == emits(
                            rows_view(rows@),
                            jj,
                            strings_view(paths@[i]@),
                        ),
                forall|p: PathView| path_occurs(rows_view(rows@), p) ==> listed(paths@, p),
                pixels_view(edges@) == edges_upto(rows_view(rows@), *info, j as int) + row_edges(
                    rows_view(rows@),
                    *info,
                    j as int,
                    f as int,
                ),
            decreases row.fields.len() - f,
        {
            let fld = &row.fields[f];
            let ghost pv = strings_view(fld.path@);
            assert(rows_view(rows@)[j as int].2[f as int] == fld.view());
            proof {
                lemma_lookup_some(rows_view(rows@)[j as int].2, pv, f as int);
                assert(lookup(rows_view(rows@)[j as int].2, pv).is_some());
                assert(path_occurs(rows_view(rows@), pv));
            }
            let ghost before = pixels_view(edges@);
            match find_path(&paths, &fld.path) {
                Some(k) => {
                    let is_edge = flags[k][j] && is_clock_info(info.get_subinfo(&fld.path)) && is_one(
                        &fld.value,
                    ) && j != 0 && j != n - 1;
                    proof {
                        let fs = rows_view(rows@)[j as int].2;
                        assert(rows_well_formed(rows_view(rows@)));
                        assert(distinct_paths(fs));
                        lemma_lookup_at(fs, pv, f as int);
                    }
                    assert(is_edge == clock_edge(rows_view(rows@), *info, j as int, pv));
                    if is_edge {
                        edges.push(row.pixel);
                        assert(pixels_view(edges@) =~= before.push(row.pixel as int));
                    }
                },
                None => {
                    proof {
                        assert(listed(paths@, pv));
                        let i = choose|i: int| 0 <= i < paths@.len() && strings_view(#[trigger] paths@[i]@) == pv;
                        assert(strings_view(paths@[i]@) != strings_view(fld.path@));
                    }
                },
            }
            f += 1;
        }
        assert(edges_upto(rows_view(rows@), *info, j + 1) == edges_upto(rows_view(rows@), *info, j as int) + row_edges(
            rows_view(rows@),
            *info,
            j as int,
            row.fields@.len() as int,
        ));
        j += 1;
    }
    edges
}


/// A pixel of the canvas with the time that it shows.
#[derive(Clone, Copy, Debug, PartialEq, Eq, Structural)]
pub struct SampleTime {
    pub pixel: i64,
    pub time: u64,
}

/// The latest change of a signal at or before a time: when it happened and the
/// value it set.
#[derive(Clone, Debug)]
pub struct SignalChange {
    pub time: u64,
    pub value: SignalValue,
}

/// Whether sample `i` (not the first) is decoded: it has a value, and that value
/// changed after the previous sample, or this is the first pixel drawn or the last.
pub open spec fn considered(samples: Seq<SampleTime>, queries: Seq<Option<SignalChange>>, i: int) -> bool {
    match queries[i] {
        Some(c) => !(c.time <= samples[i - 1].time && i != 1 && i != samples.len() - 1),
        None => false,
    }
}

/// Whether the signal changed between sample `i - 1` and sample `i`.
pub open spec fn changed_at(samples: Seq<SampleTime>, queries: Seq<Option<SignalChange>>, i: int) -> bool {
    match queries[i] {
        Some(c) => c.time > samples[i - 1].time,
        None => false,
    }
}

/// The decoded rows of a signal: one for each sample but the first, holding the
/// root field where the sample is decoded.
pub open spec fn expected_rows(
    t: Translator,
    meta: SignalMeta,
    samples: Seq<SampleTime>,
    queries: Seq<Option<SignalChange>>,
) -> Seq<RowView> {
    Seq::new(
        if samples.len() == 0 {
            0
        } else {
            (samples.len() - 1) as nat
        },
        |j: int|
            (
                samples[j + 1].pixel as int,
                changed_at(samples, queries, j + 1),
                if considered(samples, queries, j + 1) {
                    match translation(t, meta, queries[j + 1].unwrap().value) {
                        Ok(v) => seq![(Seq::<Seq<char>>::empty(), Some(v))],
                        Err(_) => Seq::empty(),
                    }
                } else {
                    Seq::empty()
                },
            ),
    )
}

/// Whether the translator refuses some sample that is decoded.
pub open spec fn translation_fails(
    t: Translator,
    meta: SignalMeta,
    samples: Seq<SampleTime>,
    queries: Seq<Option<SignalChange>>,
) -> bool {
    exists|i: int|
        1 <= i < samples.len() && #[trigger] considered(samples, queries, i) && translation(
            t,
            meta,
            queries[i].unwrap().value,
        ).is_err()
}

/// Generates the drawing commands of one signal. `samples` are the pixels to draw
/// in order, `queries[i]` the latest change of the signal at or before the time of
/// `samples[i]`. Fails where the translator refuses a sample that is decoded.
pub fn generate_signal_commands(
    translator: &Translator,
    meta: &SignalMeta,
    samples: &Vec<SampleTime>,
    queries: &Vec<Option<SignalChange>>,
) -> (r: Result<SignalCommands, TranslationError>)
    requires
        samples.len() == queries.len(),
    ensures
        r.is_err() == translation_fails(*translator, *meta, samples@, queries@),
        match r {
            Ok(c) => signal_commands_spec(
                expected_rows(*translator, *meta, samples@, queries@),
                info_of(*translator),
                c,
            ),
            Err(e) => exists|i: int|
                1 <= i < samples.len() && #[trigger] considered(samples@, queries@, i) && translation(
                    *translator,
                    *meta,
                    queries@[i].unwrap().value,
                ) == Err::<(Seq<char>, ValueKind), TranslationError>(e),
        },
{
    let ghost expected = expected_rows(*translator, *meta, samples@, queries@);
    let n = samples.len();
    let mut rows: Vec<Row> = Vec::new();
    let mut i: usize = 1;
    while i < n
        invariant
            n == samples.len(),
            n == queries.len(),
            expected == expected_rows(*translator, *meta, samples@, queries@),
            1 <= i,
            if n == 0 {
                i == 1
            } else {
                i <= n
            },
            rows@.len() == i - 1,
            forall|j: int| 0 <= j < i - 1 ==> #[trigger] rows_view(rows@)[j] == expected[j],
            forall|k: int|
                1 <= k < i ==> !(#[trigger] considered(samples@, queries@, k) && translation(
                    *translator,
                    *meta,
                    queries@[k].unwrap().value,
                ).is_err()),
        decreases n - i,
    {
        let prev_time = samples[i - 1].time;
        let pixel = samples[i].pixel;
        let ghost before = rows@;
        match &queries[i] {
            Some(change) => {
                let changed = change.time > prev_time;
                let decode = !(change.time <= prev_time && i != 1 && i != n - 1);
                if decode {
                    match translator.translate(meta, &change.value) {
                        Ok(result) => {
                            let fields = result.flatten();
                            assert(flat_view(fields@) =~= expected[i - 1].2);
                            rows.push(Row { pixel, changed, fields });
                        },
                        Err(e) => {
                            assert(considered(samples@, queries@, i as int));
                            return Err(e);
                        },
                    }
                } else {
                    let fields: Vec<FlatField> = Vec::new();
                    assert(flat_view(fields@) =~= expected[i - 1].2);
                    rows.push(Row { pixel, changed, fields });
                }
            },
            None => {
                let fields: Vec<FlatField> = Vec::new();
                assert(flat_view(fields@) =~= expected[i - 1].2);
                rows.push(Row { pixel, changed: false, fields });
            },
        }
        assert(rows@.len() == before.len() + 1);
        assert forall|j: int| 0 <= j < i implies #[trigger] rows_view(rows@)[j] == expected[j] by {
            if j < i - 1 {
                assert(rows@[j] == before[j]);
                assert(rows_view(before)[j] == expected[j]);
            }
        }
        i += 1;
    }
    if n == 0 {
        assert(expected.len() == 0);
    } else {
        assert(i == n);
        assert(expected.len() == n - 1);
    }
    assert(expected.len() == rows@.len());
    assert(rows_view(rows@) =~= expected);
    assert(!translation_fails(*translator, *meta, samples@, queries@));
    assert(rows_well_formed(rows_view(rows@))) by {
        assert forall|j: int| 0 <= j < rows_view(rows@).len() implies distinct_paths(
            #[trigger] rows_view(rows@)[j].2,
        ) by {
            assert(rows_view(rows@)[j] == expected[j]);
        }
    }
    let info = translator.signal_info(meta);
    Ok(commands_from_rows(&rows, &info))
}


/// The number of samples among `1..i` at which the signal changed since the
/// sample before.
pub open spec fn change_count(samples: Seq<SampleTime>, queries: Seq<Option<SignalChange>>, i: int) -> nat
    decreases i,
{
    if i <= 1 {
        0
    } else {
        change_count(samples, queries, i - 1) + if changed_at(samples, queries, i - 1) {
            1nat
        } else {
            0nat
        }
    }
}

proof fn lemma_sparse_upto(
    t: Translator,
    meta: SignalMeta,
    samples: Seq<SampleTime>,
    queries: Seq<Option<SignalChange>>,
    p: PathView,
    j: int,
)
    requires
        samples.len() >= 1,
        0 <= j <= samples.len() - 1,
    ensures
        commands_upto(expected_rows(t, meta, samples, queries), j, p).len() <= change_count(
            samples,
            queries,
            j + 1,
        ) + (if j >= 1 {
            1int
        } else {
            0int
        }) + (if j >= samples.len() - 1 {
            1int
        } else {
            0int
        }),
    decreases j,
{
    let rows = expected_rows(t, meta, samples, queries);
    if j > 0 {
        lemma_sparse_upto(t, meta, samples, queries, p, j - 1);
        if emits(rows, j - 1, p) {
            assert(lookup(rows[j - 1].2, p).is_some());
            assert(rows[j - 1].2.len() > 0);
            assert(considered(samples, queries, j));
        }
    }
}

/// Sparsity: however many samples the canvas has, a field of a signal gets at
/// most two entries more than the number of sample pixels at which the signal
/// changed since the previous sample pixel.
pub proof fn lemma_sparse_commands(
    t: Translator,
    meta: SignalMeta,
    samples: Seq<SampleTime>,
    queries: Seq<Option<SignalChange>>,
    p: PathView,
)
    requires
        samples.len() == queries.len(),
    ensures
        commands(expected_rows(t, meta, samples, queries), p).len() <= change_count(
            samples,
            queries,
            samples.len() as int,
        ) + 2,
{
    if samples.len() >= 1 {
        lemma_sparse_upto(t, meta, samples, queries, p, samples.len() - 1);
    }
}

/// Trailing flush: where the last sample has a value that the translator
/// decodes, the root field's last entry stands at the last pixel and holds that
/// value, even if the value did not change.
pub proof fn lemma_trailing_flush(
    t: Translator,
    meta: SignalMeta,
    samples: Seq<SampleTime>,
    queries: Seq<Option<SignalChange>>,
)
    requires
        samples.len() >= 2,
        samples.len() == queries.len(),
        queries.last().is_some(),
        translation(t, meta, queries.last().unwrap().value).is_ok(),
    ensures
        ({
            let c = commands(expected_rows(t, meta, samples, queries), Seq::<Seq<char>>::empty());
            &&& c.len() > 0
            &&& c.last().0 == samples.last().pixel as int
            &&& c.last().1 == Some(translation(t, meta, queries.last().unwrap().value)->Ok_0)
        }),
{
    let rows = expected_rows(t, meta, samples, queries);
    let m = rows.len() as int;
    let root = Seq::<Seq<char>>::empty();
    assert(considered(samples, queries, m));
    assert(rows[m - 1].2[0].0 == root);
    assert(lookup(rows[m - 1].2, root) == Some(rows[m - 1].2[0].1));
    assert(emits(rows, m - 1, root));
}


/// The time that a pixel shows: its whole part, and whether a fraction follows.
#[derive(Clone, Copy, Debug, PartialEq, Eq, Structural)]
pub struct TimeAtPixel {
    pub pixel: i64,
    pub whole: i64,
    pub fractional: bool,
}

/// Whether a pixel's time lies within `0..=max_time`.
pub open spec fn in_trace(c: TimeAtPixel, max_time: u64) -> bool {
    c.whole >= 0 && (c.whole < max_time || (c.whole == max_time && !c.fractional))
}

/// The samples to draw: the pixels whose time lies within the trace, in order,
/// each with the whole part of its time.
pub open spec fn kept_samples(cs: Seq<TimeAtPixel>, max_time: u64) -> Seq<SampleTime>
    decreases cs.len(),
{
    if cs.len() == 0 {
        Seq::empty()
    } else {
        let rest = kept_samples(cs.drop_last(), max_time);
        let c = cs.last();
        if in_trace(c, max_time) {
            rest.push(SampleTime { pixel: c.pixel, time: c.whole as u64 })
        } else {
            rest
        }
    }
}

/// Drops the pixels whose time is negative or beyond the end of the trace.
pub fn sample_times(candidates: &Vec<TimeAtPixel>, max_time: u64) -> (r: Vec<SampleTime>)
    ensures
        r@ == kept_samples(candidates@, max_time),
{
    let mut r: Vec<SampleTime> = Vec::new();
    let mut i: usize = 0;
    while i < candidates.len()
        invariant
            i <= candidates.len(),
            r@ == kept_samples(candidates@.subrange(0, i as int), max_time),
        decreases candidates.len() - i,
    {
        let c = candidates[i];
        let ghost pre = candidates@.subrange(0, i + 1);
        assert(pre.drop_last() =~= candidates@.subrange(0, i as int));
        if c.whole >= 0 && ((c.whole as u64) < max_time || (c.whole as u64 == max_time
            && !c.fractional)) {
            r.push(SampleTime { pixel: c.pixel, time: c.whole as u64 });
        }
        i += 1;
    }
    assert(candidates@.subrange(0, candidates.len() as int) =~= candidates@);
    r
}

/// The least distance in pixels between the first two clock edges that is still
/// shaded: closer edges would shade the whole canvas.
pub const MIN_CLOCK_EDGE_DISTANCE: i64 = 15;

/// Whether to shade alternate clock cycles: not without edges, always with one
/// edge, and with more only where the first two are further apart than
/// `MIN_CLOCK_EDGE_DISTANCE`.
pub fn shade_clock_cycles(edges: &Vec<i64>) -> (r: bool)
    ensures
        r == (edges@.len() == 1 || (edges@.len() >= 2 && edges@[1] - edges@[0]
            > MIN_CLOCK_EDGE_DISTANCE)),
{
    if edges.len() == 0 {
        false
    } else if edges.len() == 1 {
        true
    } else {
        (edges[1] as i128) - (edges[0] as i128) > MIN_CLOCK_EDGE_DISTANCE as i128
    }
}


/// The height at which a boolean value is drawn.
#[derive(Clone, Copy, Debug, PartialEq, Eq, Structural)]
pub enum BoolLevel {
    Low,
    Middle,
    High,
}

/// How a boolean value is drawn: a special state at mid height and unfilled; a
/// `0` (or a weak `l`/`L`) low and unfilled; anything else high and filled.
pub open spec fn bool_drawing(value: Seq<char>, kind: ValueKind) -> (BoolLevel, bool) {
    match kind {
        ValueKind::Normal => if value == seq!['0'] {
            (BoolLevel::Low, false)
        } else {
            (BoolLevel::High, true)
        },
        ValueKind::Weak => if value == seq!['l'] || value == seq!['L'] {
            (BoolLevel::Low, false)
        } else {
            (BoolLevel::High, true)
        },
        _ => (BoolLevel::Middle, false),
    }
}

fn is_single(value: &str, c: char) -> (r: bool)
    ensures
        r == (value@ == seq![c]),
{
    if value.unicode_len() == 1 && value.get_char(0) == c {
        assert(value@ =~= seq![c]);
        true
    } else {
        false
    }
}

/// The level at which a boolean value is drawn, and whether the area below it is filled.
pub fn bool_drawing_spec(value: &str, kind: ValueKind) -> (r: (BoolLevel, bool))
    ensures
        r == bool_drawing(value@, kind),
{
    match kind {
        ValueKind::Normal => if is_single(value, '0') {
            (BoolLevel::Low, false)
        } else {
            (BoolLevel::High, true)
        },
        ValueKind::Weak => if is_single(value, 'l') || is_single(value, 'L') {
            (BoolLevel::Low, false)
        } else {
            (BoolLevel::High, true)
        },
        _ => (BoolLevel::Middle, false),
    }
}


proof fn lemma_constant_upto(
    t: Translator,
    meta: SignalMeta,
    samples: Seq<SampleTime>,
    queries: Seq<Option<SignalChange>>,
    j: int,
)
    requires
        samples.len() >= 3,
        samples.len() == queries.len(),
        forall|i: int| 0 <= i < queries.len() ==> #[trigger] queries[i] == queries[0],
        queries[0].is_some(),
        forall|i: int| 0 <= i < samples.len() ==> queries[0].unwrap().time <= #[trigger] samples[i].time,
        translation(t, meta, queries[0].unwrap().value).is_ok(),
        1 <= j <= samples.len() - 2,
    ensures
        commands_upto(expected_rows(t, meta, samples, queries), j, Seq::<Seq<char>>::empty()) == seq![
            (samples[1].pixel as int, Some(translation(t, meta, queries[0].unwrap().value)->Ok_0), false),
        ],
    decreases j,
{
    let rows = expected_rows(t, meta, samples, queries);
    let root = Seq::<Seq<char>>::empty();
    if j == 1 {
        assert(queries[1] == queries[0]);
        assert(samples[0].time >= queries[0].unwrap().time);
        assert(considered(samples, queries, 1));
        assert(!changed_at(samples, queries, 1));
        assert(rows[0].2[0].0 == root);
        assert(lookup(rows[0].2, root) == Some(rows[0].2[0].1));
        assert(commands_upto(rows, 0, root) =~= Seq::empty());
    } else {
        lemma_constant_upto(t, meta, samples, queries, j - 1);
        assert(queries[j] == queries[0]);
        assert(samples[j - 1].time >= queries[0].unwrap().time);
        assert(!considered(samples, queries, j));
        assert(rows[j - 1].2.len() == 0);
        assert(!emits(rows, j - 1, root));
    }
}

/// A signal that keeps one value over the whole window, set before the first
/// sample, draws exactly one region: an entry at the first pixel drawn and the
/// closing entry at the last pixel, both with that value.
pub proof fn lemma_constant_signal_two_entries(
    t: Translator,
    meta: SignalMeta,
    samples: Seq<SampleTime>,
    queries: Seq<Option<SignalChange>>,
)
    requires
        samples.len() >= 3,
        samples.len() == queries.len(),
        forall|i: int| 0 <= i < queries.len() ==> #[trigger] queries[i] == queries[0],
        queries[0].is_some(),
        forall|i: int| 0 <= i < samples.len() ==> queries[0].unwrap().time <= #[trigger] samples[i].time,
        translation(t, meta, queries[0].unwrap().value).is_ok(),
    ensures
        ({
            let v = Some(translation(t, meta, queries[0].unwrap().value)->Ok_0);
            commands(expected_rows(t, meta, samples, queries), Seq::<Seq<char>>::empty()) == seq![
                (samples[1].pixel as int, v, false),
                (samples[samples.len() - 1].pixel as int, v, false),
            ]
        }),
{
    let rows = expected_rows(t, meta, samples, queries);
    let root = Seq::<Seq<char>>::empty();
    let m = rows.len() as int;
    lemma_constant_upto(t, meta, samples, queries, m - 1);
    assert(queries[m] == queries[0]);
    assert(samples[m - 1].time >= queries[0].unwrap().time);
    assert(considered(samples, queries, m));
    assert(!changed_at(samples, queries, m));
    assert(rows[m - 1].2[0].0 == root);
    assert(lookup(rows[m - 1].2, root) == Some(rows[m - 1].2[0].1));
    assert(emits(rows, m - 1, root));
    assert(commands(rows, root) =~= seq![
        (samples[1].pixel as int, Some(translation(t, meta, queries[0].unwrap().value)->Ok_0), false),
        (samples[samples.len() - 1].pixel as int, Some(translation(t, meta, queries[0].unwrap().value)->Ok_0), false),
    ]);
}

} // verus!
