use vstd::prelude::*;
use vstd::string::StrSliceExecFns;
use vstd::string::StringExecFns;

verus! {

/// Splits `s` at every `sep`, keeping empty pieces: the result always holds
/// one more piece than `s` holds separators.
pub open spec fn split_on(s: Seq<char>, sep: char) -> Seq<Seq<char>>
    decreases s.len(),
{
    if s.len() == 0 {
        seq![Seq::<char>::empty()]
    } else {
        let init = split_on(s.drop_last(), sep);
        if s.last() == sep {
            init.push(Seq::<char>::empty())
        } else {
            init.update(init.len() - 1, init.last().push(s.last()))
        }
    }
}

/// Joins the pieces with `sep` between each two neighbours.
pub open spec fn join_with(parts: Seq<Seq<char>>, sep: char) -> Seq<char>
    decreases parts.len(),
{
    if parts.len() == 0 {
        Seq::<char>::empty()
    } else if parts.len() == 1 {
        parts[0]
    } else {
        join_with(parts.drop_last(), sep).push(sep) + parts.last()
    }
}

pub proof fn lemma_split_nonempty(s: Seq<char>, sep: char)
    ensures
        split_on(s, sep).len() >= 1,
    decreases s.len(),
{
    if s.len() > 0 {
        lemma_split_nonempty(s.drop_last(), sep);
    }
}

/// Splitting a string and joining the pieces again gives back the string.
pub proof fn lemma_join_split(s: Seq<char>, sep: char)
    ensures
        join_with(split_on(s, sep), sep) == s,
    decreases s.len(),
{
    if s.len() > 0 {
        let p = s.drop_last();
        lemma_join_split(p, sep);
        lemma_split_nonempty(p, sep);
        let init = split_on(p, sep);
        if s.last() == sep {
            let r = init.push(Seq::<char>::empty());
            assert(r.drop_last() == init);
            assert(join_with(r, sep) == p.push(sep) + Seq::<char>::empty());
            assert(s == p.push(sep));
        } else {
            let r = init.update(init.len() - 1, init.last().push(s.last()));
            if init.len() == 1 {
                assert(init[0] == p);
                assert(s == p.push(s.last()));
            } else {
                assert(r.drop_last() == init.drop_last());
                let j = join_with(init.drop_last(), sep).push(sep);
                assert(p == j + init.last());
                assert(s == p.push(s.last()));
                assert(j + init.last().push(s.last()) == (j + init.last()).push(s.last()));
            }
        }
    }
}


/// The character sequences that a list of strings holds.
pub open spec fn strings_view(v: Seq<String>) -> Seq<Seq<char>> {
    v.map_values(|x: String| x@)
}

/// Splits `s` at every `sep`, as `str::split` does.
pub fn split_str(s: &str, sep: char) -> (r: Vec<String>)
    ensures
        strings_view(r@) == split_on(s@, sep),
{
    let n = s.unicode_len();
    let mut parts: Vec<String> = Vec::new();
    let mut start: usize = 0;
    let mut i: usize = 0;
    assert(s@.subrange(0, 0) =~= Seq::<char>::empty());
    assert(strings_view(parts@).push(s@.subrange(0, 0)) =~= seq![Seq::<char>::empty()]);
    while i < n
        invariant
            n == s@.len(),
            start <= i <= n,
            strings_view(parts@).push(s@.subrange(start as int, i as int)) == split_on(
                s@.subrange(0, i as int),
                sep,
            ),
        decreases n - i,
    {
        let c = s.get_char(i);
        let ghost before = strings_view(parts@);
        let ghost t = s@.subrange(0, i + 1);
        assert(t.drop_last() =~= s@.subrange(0, i as int));
        assert(t.last() == c);
        if c == sep {
            let piece = s.substring_char(start, i).to_owned();
            parts.push(piece);
            start = i + 1;
            assert(s@.subrange(start as int, i + 1) =~= Seq::<char>::empty());
            assert(strings_view(parts@) =~= before.push(piece@));
        } else {
            assert(s@.subrange(start as int, i + 1) =~= s@.subrange(start as int, i as int).push(c));
            assert(strings_view(parts@).push(s@.subrange(start as int, i + 1)) =~= before.push(
                s@.subrange(start as int, i as int),
            ).update(before.len() as int, s@.subrange(start as int, i as int).push(c)));
        }
        i += 1;
    }
    let last = s.substring_char(start, n).to_owned();
    let ghost before = strings_view(parts@);
    parts.push(last);
    assert(strings_view(parts@) =~= before.push(last@));
    assert(s@.subrange(0, n as int) =~= s@);
    parts
}

/// Joins `parts` with `sep`, as `join` on a slice of strings does.
pub fn join_strs(parts: &Vec<String>, sep: &str) -> (r: String)
    requires
        sep@.len() == 1,
    ensures
        r@ == join_with(strings_view(parts@), sep@[0]),
{
    let mut r = String::new();
    let mut i: usize = 0;
    while i < parts.len()
        invariant
            sep@.len() == 1,
            i <= parts.len(),
            r@ == join_with(strings_view(parts@.subrange(0, i as int)), sep@[0]),
        decreases parts.len() - i,
    {
        let ghost before = r@;
        if i > 0 {
            r.append(sep);
        }
        r.append(parts[i].as_str());
        let ghost sub = strings_view(parts@.subrange(0, i + 1));
        assert(sub.drop_last() =~= strings_view(parts@.subrange(0, i as int)));
        assert(sub.last() == parts@[i as int]@);
        assert(sep@ =~= seq![sep@[0]]);
        if i == 0 {
            assert(r@ =~= sub[0]);
        } else {
            assert(r@ =~= before.push(sep@[0]) + sub.last());
        }
        i += 1;
    }
    assert(parts@.subrange(0, parts.len() as int) =~= parts@);
    r
}


/// Whether two lists of strings hold the same strings in the same order.
pub fn strings_eq(a: &Vec<String>, b: &Vec<String>) -> (r: bool)
    ensures
        r == (strings_view(a@) == strings_view(b@)),
{
    if a.len() != b.len() {
        assert(strings_view(a@).len() != strings_view(b@).len());
        return false;
    }
    let mut i: usize = 0;
    while i < a.len()
        invariant
            a.len() == b.len(),
            i <= a.len(),
            forall|k: int| 0 <= k < i ==> a@[k]@ == b@[k]@,
        decreases a.len() - i,
    {
        if a[i] != b[i] {
            assert(strings_view(a@)[i as int] != strings_view(b@)[i as int]);
            return false;
        }
        i += 1;
    }
    assert(strings_view(a@) =~= strings_view(b@));
    true
}

/// Copies string slices into owned strings.
fn owned_strings(s: &[&str]) -> (r: Vec<String>)
    ensures
        strings_view(r@) == s@.map_values(|x: &str| x@),
{
    let mut r: Vec<String> = Vec::new();
    let mut i: usize = 0;
    while i < s.len()
        invariant
            i <= s@.len(),
            strings_view(r@) =~= s@.subrange(0, i as int).map_values(|x: &str| x@),
        decreases s@.len() - i,
    {
        let ghost before = strings_view(r@);
        let o = s[i].to_owned();
        r.push(o);
        assert(strings_view(r@) =~= before.push(o@));
        assert(s@.subrange(0, i + 1) =~= s@.subrange(0, i as int).push(s@[i as int]));
        i += 1;
    }
    assert(s@.subrange(0, s@.len() as int) =~= s@);
    r
}

/// A path of scopes in the hierarchy of a trace, outermost first.
#[derive(Clone, Debug, Hash)]
pub struct ScopeName(pub Vec<String>);

impl View for ScopeName {
    type V = Seq<Seq<char>>;

    open spec fn view(&self) -> Seq<Seq<char>> {
        strings_view(self.0@)
    }
}

impl PartialEq for ScopeName {
    fn eq(&self, other: &ScopeName) -> (r: bool) {
        strings_eq(&self.0, &other.0)
    }
}

impl vstd::std_specs::cmp::PartialEqSpecImpl for ScopeName {
    open spec fn obeys_eq_spec() -> bool {
        true
    }

    open spec fn eq_spec(&self, other: &ScopeName) -> bool {
        self@ == other@
    }
}

impl Eq for ScopeName {

}

impl ScopeName {
    pub fn from_strs(s: &[&str]) -> (r: Self)
        ensures
            r@ == s@.map_values(|x: &str| x@),
    {
        ScopeName(owned_strings(s))
    }

    /// The scope path written with each scope separated by `.`.
    pub fn from_hierarchy_string(s: &str) -> (r: Self)
        ensures
            r@ == split_on(s@, '.'),
    {
        ScopeName(split_str(s, '.'))
    }

    pub fn with_subscope(&self, subscope: String) -> (r: Self)
        ensures
            r@ == self@.push(subscope@),
    {
        let mut v = self.0.clone();
        proof {
            assert(v@ =~= self.0@) by {
                assert(forall|k: int| 0 <= k < v@.len() ==> v@[k] == self.0@[k]);
            }
        }
        v.push(subscope);
        assert(strings_view(v@) =~= self@.push(subscope@));
        ScopeName(v)
    }

    /// The innermost scope, or the empty string for the empty path.
    pub fn name(&self) -> (r: String)
        ensures
            self@.len() == 0 ==> r@.len() == 0,
            self@.len() > 0 ==> r@ == self@.last(),
    {
        if self.0.len() == 0 {
            String::new()
        } else {
            self.0[self.0.len() - 1].clone()
        }
    }

    /// The scopes joined by `.`.
    pub fn to_string(&self) -> (r: String)
        ensures
            r@ == join_with(self@, '.'),
    {
        let sep = ".";
        proof {
            reveal_strlit(".");
        }
        join_strs(&self.0, sep)
    }
}

/// A variable of a trace: the scope that holds it and its own name.
#[derive(Clone, Debug, Hash)]
pub struct VarName {
    /// Path in the module hierarchy to where this signal resides
    pub path: ScopeName,
    /// Name of the signal in its hierarchy
    pub name: String,
}

impl VarName {
    /// The scopes and then the name, the segments of the full path.
    pub open spec fn segments(&self) -> Seq<Seq<char>> {
        self.path@.push(self.name@)
    }
}

impl PartialEq for VarName {
    fn eq(&self, other: &VarName) -> (r: bool) {
        self.name == other.name && self.path == other.path
    }
}

impl vstd::std_specs::cmp::PartialEqSpecImpl for VarName {
    open spec fn obeys_eq_spec() -> bool {
        true
    }

    open spec fn eq_spec(&self, other: &VarName) -> bool {
        self.path@ == other.path@ && self.name@ == other.name@
    }
}

impl Eq for VarName {

}

impl VarName {
    pub fn new(path: ScopeName, name: String) -> (r: Self)
        ensures
            r.path@ == path@,
            r.name@ == name@,
    {
        VarName { path, name }
    }

    /// Reads a dotted path: the last piece is the name, those before it the scopes.
    pub fn from_hierarchy_string(s: &str) -> (r: Self)
        ensures
            r.segments() == split_on(s@, '.'),
    {
        let mut components = split_str(s, '.');
        proof {
            lemma_split_nonempty(s@, '.');
        }
        let ghost all = components@;
        let name = components.pop().unwrap();
        assert(strings_view(components@).push(name@) =~= strings_view(all));
        VarName { path: ScopeName(components), name }
    }

    /// A human readable full path: the segments joined by `.`.
    pub fn full_path_string(&self) -> (r: String)
        ensures
            r@ == join_with(self.segments(), '.'),
    {
        if self.path.0.len() == 0 {
            assert(self.segments() =~= seq![self.name@]);
            self.name.clone()
        } else {
            let mut r = self.path.to_string();
            let sep = ".";
            proof {
                reveal_strlit(".");
            }
            r.append(sep);
            r.append(self.name.as_str());
            assert(self.segments().drop_last() =~= self.path@);
            assert(r@ =~= join_with(self.path@, '.').push('.') + self.name@);
            r
        }
    }

    /// The segments of the full path, for lookups in the hierarchy.
    pub fn full_path(&self) -> (r: Vec<String>)
        ensures
            strings_view(r@) == self.segments(),
    {
        let mut v = self.path.0.clone();
        proof {
            assert(v@ =~= self.path.0@) by {
                assert(forall|k: int| 0 <= k < v@.len() ==> v@[k] == self.path.0@[k]);
            }
        }
        v.push(self.name.clone());
        assert(strings_view(v@) =~= self.segments());
        v
    }

    /// A variable from its segments: scopes first, the name last.
    pub fn from_strs(s: &[&str]) -> (r: Self)
        requires
            s@.len() >= 1,
        ensures
            r.segments() == s@.map_values(|x: &str| x@),
    {
        let mut v = owned_strings(s);
        let ghost all = v@;
        let name = v.pop().unwrap();
        assert(strings_view(v@).push(name@) =~= strings_view(all));
        VarName { path: ScopeName(v), name }
    }
}

/// Reading a dotted path and writing it out again gives the same text.
pub proof fn lemma_hierarchy_string_round_trip(s: Seq<char>, v: VarName)
    requires
        v.segments() == split_on(s, '.'),
    ensures
        join_with(v.segments(), '.') == s,
{
    lemma_join_split(s, '.');
}

/// A reference to a field of a larger signal, such as a field in a struct. The fields
/// are the recursive path to the fields inside the (translated) root
#[derive(Clone, Debug, Hash)]
pub struct FieldRef {
    pub root: VarName,
    pub field: Vec<String>,
}

impl FieldRef {
    pub open spec fn field_view(&self) -> Seq<Seq<char>> {
        strings_view(self.field@)
    }
}

impl PartialEq for FieldRef {
    fn eq(&self, other: &FieldRef) -> (r: bool) {
        self.root == other.root && strings_eq(&self.field, &other.field)
    }
}

impl vstd::std_specs::cmp::PartialEqSpecImpl for FieldRef {
    open spec fn obeys_eq_spec() -> bool {
        true
    }

    open spec fn eq_spec(&self, other: &FieldRef) -> bool {
        self.root.path@ == other.root.path@ && self.root.name@ == other.root.name@
            && self.field_view() == other.field_view()
    }
}

impl Eq for FieldRef {

}

impl FieldRef {
    pub fn without_fields(root: VarName) -> (r: Self)
        ensures
            r.root.path@ == root.path@,
            r.root.name@ == root.name@,
            r.field@.len() == 0,
    {
        FieldRef { root, field: Vec::new() }
    }

    pub fn from_strs(root: &[&str], field: &[&str]) -> (r: Self)
        requires
            root@.len() >= 1,
        ensures
            r.root.segments() == root@.map_values(|x: &str| x@),
            r.field_view() == field@.map_values(|x: &str| x@),
    {
        FieldRef { root: VarName::from_strs(root), field: owned_strings(field) }
    }
}

} // verus!
