//! Equality constraints: a store of path groups together with the reading
//! that turns the groups into text. Two constraints are the same constraint
//! when their texts are equal.

use crate::label::ECTATrait;
use crate::path_class::conflict_free;
use crate::path_class::map_of;
use crate::path_class::ConstraintError;
use crate::path_class::PathEClass;
use crate::paths::holds_exactly;
use crate::paths::increasing;
use crate::paths::lemma_listing_unique;
use crate::paths::pairs_view;
use crate::paths::Id;
use crate::text::join;
use crate::text::join_strings;
use crate::text::path_text;
use crate::text::render_path;
use crate::text::strings_view;
use vstd::prelude::*;
use vstd::std_specs::cmp::PartialEqSpecImpl;

verus! {

/// The groups handed to a reading, each with its identifier and the texts of
/// its paths.
pub open spec fn groups_view(v: Seq<(Id, Vec<String>)>) -> Seq<(Id, Seq<Seq<char>>)> {
    Seq::new(v.len(), |i: int| (v[i].0, strings_view(v[i].1@)))
}

/// A reading of path groups: what relation the paths of one group stand in,
/// and how the groups are written down.
pub trait PathConstraintStringify: Sized {
    /// The text for the given groups.
    spec fn render(&self, groups: Seq<(Id, Seq<Seq<char>>)>) -> Seq<char>;

    /// Writes the given groups down.
    fn stringify(&self, groups: Vec<(Id, Vec<String>)>) -> (r: String)
        ensures
            r@ == self.render(groups_view(groups@)),
    ;
}

/// One line for each group: its paths with ` = ` between them.
pub open spec fn equality_lines(groups: Seq<(Id, Seq<Seq<char>>)>) -> Seq<Seq<char>> {
    Seq::new(groups.len(), |i: int| join(groups[i].1, seq![' ', '=', ' ']))
}

/// Equality: the paths of a group are joined by ` = `, and the groups stand
/// on lines of their own.
impl PathConstraintStringify for () {
    open spec fn render(&self, groups: Seq<(Id, Seq<Seq<char>>)>) -> Seq<char> {
        join(equality_lines(groups), seq!['\n'])
    }

    fn stringify(&self, groups: Vec<(Id, Vec<String>)>) -> (r: String) {
        let mut lines: Vec<String> = Vec::new();
        let mut i: usize = 0;
        proof {
            reveal_strlit(" = ");
            reveal_strlit("\n");
            assert(" = "@ =~= seq![' ', '=', ' ']);
            assert("\n"@ =~= seq!['\n']);
        }
        while i < groups.len()
            invariant
                i <= groups.len(),
                lines.len() == i,
                " = "@ == seq![' ', '=', ' '],
                forall|k: int|
                    0 <= k < i ==> (#[trigger] lines@[k])@ == join(
                        strings_view(groups@[k].1@),
                        seq![' ', '=', ' '],
                    ),
            decreases groups.len() - i,
        {
            lines.push(join_strings(&groups[i].1, " = "));
            i += 1;
        }
        proof {
            assert(strings_view(lines@) =~= equality_lines(groups_view(groups@)));
        }
        join_strings(&lines, "\n")
    }
}

/// The group identifiers of a list, each once, in the order in which they
/// first occur.
pub open spec fn ids(l: Seq<(Seq<u8>, Id)>) -> Seq<Id>
    decreases l.len(),
{
    if l.len() == 0 {
        Seq::empty()
    } else {
        let before = ids(l.drop_last());
        if before.contains(l.last().1) {
            before
        } else {
            before.push(l.last().1)
        }
    }
}

/// The paths of a list that belong to the group `id`, in their order.
pub open spec fn members(l: Seq<(Seq<u8>, Id)>, id: Id) -> Seq<Seq<u8>>
    decreases l.len(),
{
    if l.len() == 0 {
        Seq::empty()
    } else if l.last().1 == id {
        members(l.drop_last(), id).push(l.last().0)
    } else {
        members(l.drop_last(), id)
    }
}

/// The texts of some paths.
pub open spec fn names_of(ps: Seq<Seq<u8>>) -> Seq<Seq<char>> {
    Seq::new(ps.len(), |j: int| path_text(ps[j]))
}

/// The groups of a list in the order in which they first occur, each with
/// the texts of its paths.
pub open spec fn named_groups(l: Seq<(Seq<u8>, Id)>) -> Seq<(Id, Seq<Seq<char>>)> {
    Seq::new(ids(l).len(), |i: int| (ids(l)[i], names_of(members(l, ids(l)[i]))))
}

/// The pairs of a map in increasing order of their paths.
pub open spec fn listing(m: Map<Seq<u8>, Id>) -> Seq<(Seq<u8>, Id)> {
    choose|l: Seq<(Seq<u8>, Id)>| increasing(l) && holds_exactly(m, l)
}

/// No identifier occurs twice among the identifiers of a list.
pub proof fn lemma_ids_distinct(l: Seq<(Seq<u8>, Id)>)
    ensures
        forall|a: int, b: int| 0 <= a < b < ids(l).len() ==> ids(l)[a] != ids(l)[b],
    decreases l.len(),
{
    if l.len() > 0 {
        let before = ids(l.drop_last());
        lemma_ids_distinct(l.drop_last());
        assert forall|a: int, b: int| 0 <= a < b < ids(l).len() implies ids(l)[a] != ids(l)[b] by {
            if b == before.len() {
                assert(before.contains(before[a]));
            }
        }
    }
}

/// The identifiers of a list are those of its pairs.
pub proof fn lemma_ids_cover(l: Seq<(Seq<u8>, Id)>, id: Id)
    ensures
        ids(l).contains(id) <==> exists|i: int| 0 <= i < l.len() && (#[trigger] l[i]).1 == id,
    decreases l.len(),
{
    if l.len() > 0 {
        let front = l.drop_last();
        lemma_ids_cover(front, id);
        let before = ids(front);
        if before.contains(id) {
            let i = choose|i: int| 0 <= i < front.len() && (#[trigger] front[i]).1 == id;
            assert(l[i].1 == id);
            if !before.contains(l.last().1) {
                let k = choose|k: int| 0 <= k < before.len() && before[k] == id;
                assert(before.push(l.last().1)[k] == id);
            }
        } else {
            if l.last().1 == id {
                assert(l[l.len() - 1].1 == id);
                assert(before.push(id)[before.len() as int] == id);
            } else {
                if ids(l).contains(id) {
                    let k = choose|k: int| 0 <= k < ids(l).len() && ids(l)[k] == id;
                    if before.contains(l.last().1) {
                        assert(before[k] == id);
                    } else if k < before.len() {
                        assert(before[k] == id);
                    }
                }
                if exists|i: int| 0 <= i < l.len() && (#[trigger] l[i]).1 == id {
                    let i = choose|i: int| 0 <= i < l.len() && (#[trigger] l[i]).1 == id;
                    assert(front[i].1 == id);
                }
            }
        }
    }
}

/// A group holds the paths that the list gives its identifier, and no other.
pub proof fn lemma_members_cover(l: Seq<(Seq<u8>, Id)>, id: Id, p: Seq<u8>)
    ensures
        members(l, id).contains(p) <==> l.contains((p, id)),
    decreases l.len(),
{
    if l.len() > 0 {
        let front = l.drop_last();
        lemma_members_cover(front, id, p);
        let rest = members(front, id);
        if rest.contains(p) {
            let k = choose|k: int| 0 <= k < rest.len() && rest[k] == p;
            let i = choose|i: int| 0 <= i < front.len() && front[i] == (p, id);
            assert(l[i] == (p, id));
            if l.last().1 == id {
                assert(rest.push(l.last().0)[k] == p);
            }
        } else {
            if l.last() == (p, id) {
                assert(l[l.len() - 1] == (p, id));
                assert(rest.push(p)[rest.len() as int] == p);
            } else {
                if members(l, id).contains(p) {
                    let k = choose|k: int| 0 <= k < members(l, id).len() && members(l, id)[k] == p;
                    if l.last().1 == id {
                        if k < rest.len() {
                            assert(rest[k] == p);
                        }
                    } else {
                        assert(rest[k] == p);
                    }
                }
                if l.contains((p, id)) {
                    let i = choose|i: int| 0 <= i < l.len() && l[i] == (p, id);
                    assert(front[i] == (p, id));
                }
            }
        }
    }
}

/// The index of the group with the identifier `id`, if there is one.
fn find_group(groups: &Vec<(Id, Vec<String>)>, id: Id) -> (r: Option<usize>)
    ensures
        r matches Some(g) ==> g < groups.len() && groups@[g as int].0 == id,
        r is None ==> forall|k: int| 0 <= k < groups.len() ==> (#[trigger] groups@[k]).0 != id,
{
    let mut k: usize = 0;
    while k < groups.len()
        invariant
            k <= groups.len(),
            forall|a: int| 0 <= a < k ==> (#[trigger] groups@[a]).0 != id,
        decreases groups.len() - k,
    {
        if groups[k].0 == id {
            return Some(k);
        }
        k += 1;
    }
    None
}

/// One more pair at the end of a list, where its group is already there:
/// the pair's path joins that group.
proof fn lemma_group_grows(l: Seq<(Seq<u8>, Id)>, g: int)
    requires
        l.len() > 0,
        0 <= g < ids(l.drop_last()).len(),
        ids(l.drop_last())[g] == l.last().1,
    ensures
        named_groups(l) == named_groups(l.drop_last()).update(
            g,
            (
                l.last().1,
                named_groups(l.drop_last())[g].1.push(path_text(l.last().0)),
            ),
        ),
{
    let front = l.drop_last();
    let id = l.last().1;
    lemma_ids_distinct(front);
    assert(ids(front).contains(id));
    assert(ids(l) == ids(front));
    let a = named_groups(l);
    let b = named_groups(front).update(g, (id, named_groups(front)[g].1.push(path_text(l.last().0))));
    assert(a.len() == b.len());
    assert forall|k: int| 0 <= k < a.len() implies a[k] == b[k] by {
        if k == g {
            assert(members(l, id) == members(front, id).push(l.last().0));
            assert(names_of(members(l, id)) =~= names_of(members(front, id)).push(
                path_text(l.last().0),
            ));
        } else {
            assert(ids(front)[k] != id);
            assert(members(l, ids(front)[k]) == members(front, ids(front)[k]));
        }
    }
    assert(a =~= b);
}

/// One more pair at the end of a list, where its group is new: the group is
/// added at the end, with that one path.
proof fn lemma_group_starts(l: Seq<(Seq<u8>, Id)>)
    requires
        l.len() > 0,
        !ids(l.drop_last()).contains(l.last().1),
    ensures
        named_groups(l) == named_groups(l.drop_last()).push(
            (l.last().1, seq![path_text(l.last().0)]),
        ),
{
    let front = l.drop_last();
    let id = l.last().1;
    assert(ids(l) == ids(front).push(id));
    assert(members(front, id).len() == 0) by {
        if members(front, id).len() > 0 {
            let p = members(front, id)[0];
            assert(members(front, id).contains(p));
            lemma_members_cover(front, id, p);
            let i = choose|i: int| 0 <= i < front.len() && front[i] == (p, id);
            assert(front[i].1 == id);
            lemma_ids_cover(front, id);
        }
    }
    let a = named_groups(l);
    let b = named_groups(front).push((id, seq![path_text(l.last().0)]));
    assert(a.len() == b.len());
    assert forall|k: int| 0 <= k < a.len() implies a[k] == b[k] by {
        if k == ids(front).len() {
            assert(ids(l)[k] == id);
            assert(members(l, id) == members(front, id).push(l.last().0));
            assert(names_of(members(l, id)) =~= seq![path_text(l.last().0)]);
        } else {
            assert(ids(l)[k] == ids(front)[k]);
            assert(ids(front).contains(ids(front)[k]));
            assert(ids(front)[k] != id);
            assert(members(l, ids(front)[k]) == members(front, ids(front)[k]));
        }
    }
    assert(a =~= b);
}

/// Sorts the pairs of a list into groups, in the order in which the groups
/// first occur, and writes each path as text.
pub fn group_names(pairs: &Vec<(Vec<u8>, Id)>) -> (groups: Vec<(Id, Vec<String>)>)
    ensures
        groups_view(groups@) == named_groups(pairs_view(pairs@)),
{
    let ghost l = pairs_view(pairs@);
    let mut groups: Vec<(Id, Vec<String>)> = Vec::new();
    let mut i: usize = 0;
    proof {
        assert(groups_view(groups@) =~= named_groups(l.take(0)));
    }
    while i < pairs.len()
        invariant
            i <= pairs.len(),
            l == pairs_view(pairs@),
            groups_view(groups@) == named_groups(l.take(i as int)),
        decreases pairs.len() - i,
    {
        let ghost front = l.take(i as int);
        let ghost upto = l.take(i + 1);
        let ghost before = groups_view(groups@);
        let id = pairs[i].1;
        let name = render_path(&pairs[i].0);
        proof {
            assert(upto.drop_last() =~= front);
            assert(upto.last() == (pairs@[i as int].0@, id));
            assert(before.len() == groups.len());
            assert(groups.len() == ids(front).len());
            assert forall|k: int| 0 <= k < groups.len() implies (#[trigger] groups@[k]).0 == ids(
                front,
            )[k] by {
                assert(before[k].0 == groups@[k].0);
            }
        }
        match find_group(&groups, id) {
            Some(g) => {
                let mut entry = groups.remove(g);
                let ghost old_names = strings_view(entry.1@);
                entry.1.push(name);
                proof {
                    assert(strings_view(entry.1@) =~= old_names.push(name@));
                    assert(before[g as int].1 == old_names);
                }
                groups.insert(g, entry);
                proof {
                    lemma_group_grows(upto, g as int);
                    assert(groups_view(groups@) =~= before.update(
                        g as int,
                        (id, old_names.push(name@)),
                    ));
                }
            },
            None => {
                let mut names: Vec<String> = Vec::new();
                names.push(name);
                groups.push((id, names));
                proof {
                    assert(!ids(front).contains(id)) by {
                        if ids(front).contains(id) {
                            let k = choose|k: int| 0 <= k < ids(front).len() && ids(front)[k] == id;
                            assert(groups@[k].0 == id);
                        }
                    }
                    lemma_group_starts(upto);
                    assert(strings_view(names@) =~= seq![name@]);
                    assert(groups_view(groups@) =~= before.push((id, seq![name@])));
                }
            },
        }
        i += 1;
    }
    proof {
        assert(l.take(i as int) =~= l);
    }
    groups
}

/// A set of path groups under one reading.
pub struct Constraints<T> {
    /// The constrained paths, each with its group.
    data: PathEClass,
    /// The reading of the groups.
    relationships: T,
}

impl<T: PathConstraintStringify> Constraints<T> {
    /// The constrained paths, each with its group.
    pub closed spec fn paths(&self) -> Map<Seq<u8>, Id> {
        self.data@
    }

    /// The reading of the groups.
    pub closed spec fn relationships(&self) -> T {
        self.relationships
    }

    /// The text of the constraint: its groups in increasing order of their
    /// least path, under its reading.
    pub open spec fn text(&self) -> Seq<char> {
        self.relationships().render(named_groups(listing(self.paths())))
    }

    /// Builds a constraint from pairs of a path and its group, in any order.
    /// An empty collection is refused, and so is a path with two groups.
    pub fn new(path_data: Vec<(Vec<u8>, Id)>, relationships: T) -> (r: Result<Self, ConstraintError>)
        ensures
            match r {
                Ok(c) => {
                    &&& path_data.len() > 0
                    &&& conflict_free(pairs_view(path_data@))
                    &&& c.paths() == map_of(pairs_view(path_data@))
                    &&& c.relationships() == relationships
                },
                Err(ConstraintError::NoPaths) => path_data.len() == 0,
                Err(ConstraintError::ConflictingGroups) => path_data.len() > 0 && !conflict_free(
                    pairs_view(path_data@),
                ),
            },
    {
        if path_data.len() == 0 {
            return Err(ConstraintError::NoPaths);
        }
        match PathEClass::new(path_data) {
            Ok(data) => Ok(Constraints { data, relationships }),
            Err(e) => Err(e),
        }
    }

    /// The store of the constrained paths.
    pub fn path_store(&self) -> (r: &PathEClass)
        ensures
            r@ == self.paths(),
    {
        &self.data
    }

    /// The text of the constraint.
    pub fn to_string(&self) -> (s: String)
        ensures
            s@ == self.text(),
    {
        let pairs = self.data.pairs();
        proof {
            lemma_listing_unique(self.data@, pairs_view(pairs@), listing(self.data@));
        }
        let groups = group_names(&pairs);
        self.relationships.stringify(groups)
    }
}

impl<T: PathConstraintStringify + ECTATrait> Constraints<T> {
    /// A copy of the constraint.
    pub fn duplicate(&self) -> (r: Self)
        ensures
            r.paths() == self.paths(),
            r.relationships() == self.relationships(),
            r.text() == self.text(),
    {
        Constraints { data: self.data.clone(), relationships: self.relationships.duplicate() }
    }
}

impl<T: PathConstraintStringify + ECTATrait> Clone for Constraints<T> {
    fn clone(&self) -> (r: Self)
        ensures
            r.paths() == self.paths(),
            r.relationships() == self.relationships(),
            r.text() == self.text(),
    {
        self.duplicate()
    }
}

impl<T: PathConstraintStringify> PartialEq for Constraints<T> {
    fn eq(&self, other: &Self) -> (b: bool) {
        self.to_string() == other.to_string()
    }
}

impl<T: PathConstraintStringify> PartialEqSpecImpl for Constraints<T> {
    open spec fn obeys_eq_spec() -> bool {
        true
    }

    open spec fn eq_spec(&self, other: &Self) -> bool {
        self.text() == other.text()
    }
}

impl<T: PathConstraintStringify> Eq for Constraints<T> {

}

} // verus!
