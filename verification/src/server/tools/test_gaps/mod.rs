//! Which tests cover which source files, and which source files none covers.
use std::collections::HashMap;
use vstd::hash_map::StringHashMap;
use vstd::prelude::*;

use crate::group_map;
use crate::order;
use crate::storage::models::FileRow;
use crate::test_paths;
use crate::test_paths::is_test_path;
use crate::text;
use crate::text::{push_count, same};

pub mod gaps;
pub mod mapping;
pub mod suggest;

verus! {

broadcast use vstd::std_specs::hash::group_hash_axioms;

/// The file with an id; the last one where several have it.
pub open spec fn file_by_id(files: Seq<FileRow>, id: i64) -> Option<FileRow>
    decreases files.len(),
{
    if files.len() == 0 {
        None
    } else if files.last().id == id {
        Some(files.last())
    } else {
        file_by_id(files.drop_last(), id)
    }
}

/// The id of the file with a path; of the last one where several have it.
pub open spec fn id_by_path(files: Seq<FileRow>, path: Seq<char>) -> Option<i64>
    decreases files.len(),
{
    if files.len() == 0 {
        None
    } else if files.last().path@ == path {
        Some(files.last().id)
    } else {
        id_by_path(files.drop_last(), path)
    }
}

/// What the file `from` imports, itself left out, in the order of the edges.
pub open spec fn targets(edges: Seq<(i64, i64)>, from: i64) -> Seq<i64>
    decreases edges.len(),
{
    if edges.len() == 0 {
        Seq::empty()
    } else {
        let rest = targets(edges.drop_last(), from);
        let edge = edges.last();
        if edge.0 == from && edge.0 != edge.1 {
            rest.push(edge.1)
        } else {
            rest
        }
    }
}

/// What imports the file `to`, itself left out, in the order of the edges.
pub open spec fn sources(edges: Seq<(i64, i64)>, to: i64) -> Seq<i64>
    decreases edges.len(),
{
    if edges.len() == 0 {
        Seq::empty()
    } else {
        let rest = sources(edges.drop_last(), to);
        let edge = edges.last();
        if edge.1 == to && edge.0 != edge.1 {
            rest.push(edge.0)
        } else {
            rest
        }
    }
}

/// One file imports another exactly when the other is imported by it, and no
/// file imports itself.
pub proof fn law_imports_are_mutual(edges: Seq<(i64, i64)>, from: i64, to: i64)
    ensures
        targets(edges, from).contains(to) <==> sources(edges, to).contains(from),
        !targets(edges, from).contains(from),
    decreases edges.len(),
{
    if edges.len() > 0 {
        let rest = edges.drop_last();
        law_imports_are_mutual(rest, from, to);
        let t = targets(rest, from);
        let s = sources(rest, to);
        assert forall|x: i64, y: i64| #[trigger] t.push(x).contains(y) == (t.contains(y) || x
            == y) by {
            lemma_contains_push(t, x, y);
        }
        assert forall|x: i64, y: i64| #[trigger] s.push(x).contains(y) == (s.contains(y) || x
            == y) by {
            lemma_contains_push(s, x, y);
        }
    }
}

proof fn lemma_contains_push(list: Seq<i64>, x: i64, y: i64)
    ensures
        list.push(x).contains(y) == (list.contains(y) || x == y),
{
    let longer = list.push(x);
    if list.contains(y) {
        let k = choose|k: int| 0 <= k < list.len() && list[k] == y;
        assert(longer[k] == y);
    }
    if x == y {
        assert(longer[list.len() as int] == y);
    }
}

spec fn listed(map: Map<i64, Vec<i64>>, id: i64) -> Seq<i64> {
    if map.contains_key(id) {
        map[id]@
    } else {
        Seq::empty()
    }
}

fn add_to_list(map: &mut HashMap<i64, Vec<i64>>, id: i64, value: i64)
    ensures
        listed(final(map)@, id) == listed(old(map)@, id).push(value),
        forall|other: i64|
            other != id ==> #[trigger] listed(final(map)@, other) == listed(old(map)@, other),
{
    let mut list: Vec<i64> = match map.remove(&id) {
        Some(list) => list,
        None => Vec::new(),
    };
    list.push(value);
    map.insert(id, list);
}

/// The files of the index and the imports between them, ready for lookup.
pub struct TestGapsCtx<'a> {
    all_files: &'a Vec<FileRow>,
    all_edges: Ghost<Seq<(i64, i64)>>,
    id_to_file: HashMap<i64, usize>,
    path_to_id: StringHashMap<i64>,
    forward: HashMap<i64, Vec<i64>>,
    reverse: HashMap<i64, Vec<i64>>,
}

impl<'a> TestGapsCtx<'a> {
    /// The files of the index.
    pub closed spec fn files(self) -> Seq<FileRow> {
        self.all_files@
    }

    /// The imports between them.
    pub closed spec fn edges(self) -> Seq<(i64, i64)> {
        self.all_edges@
    }

    spec fn found(self, id: i64) -> Option<FileRow> {
        if self.id_to_file@.contains_key(id) {
            Some(self.all_files@[self.id_to_file@[id] as int])
        } else {
            None
        }
    }

    spec fn found_id(self, path: Seq<char>) -> Option<i64> {
        if self.path_to_id@.contains_key(path) {
            Some(self.path_to_id@[path])
        } else {
            None
        }
    }

    /// The lookup tables agree with the files and the imports.
    pub closed spec fn well_formed(self) -> bool {
        &&& forall|id: i64| #[trigger]
            self.id_to_file@.contains_key(id) ==> self.id_to_file@[id] < self.all_files@.len()
        &&& forall|id: i64| #[trigger] file_by_id(self.files(), id) == self.found(id)
        &&& forall|path: Seq<char>| #[trigger]
            id_by_path(self.files(), path) == self.found_id(path)
        &&& forall|id: i64| #[trigger] targets(self.edges(), id) == listed(self.forward@, id)
        &&& forall|id: i64| #[trigger] sources(self.edges(), id) == listed(self.reverse@, id)
    }

    /// Builds the lookup tables.
    pub fn build(all_files: &'a Vec<FileRow>, all_edges: &Vec<(i64, i64)>) -> (r: Self)
        ensures
            r.well_formed(),
            r.files() == all_files@,
            r.edges() == all_edges@,
    {
        let mut ctx = TestGapsCtx {
            all_files,
            all_edges: Ghost(all_edges@),
            id_to_file: HashMap::new(),
            path_to_id: StringHashMap::new(),
            forward: HashMap::new(),
            reverse: HashMap::new(),
        };
        let n: usize = all_files.len();
        let mut i: usize = 0;
        while i < n
            invariant
                n == all_files@.len(),
                i <= n,
                ctx.all_files@ == all_files@,
                ctx.all_edges@ == all_edges@,
                ctx.forward@ == Map::<i64, Vec<i64>>::empty(),
                ctx.reverse@ == Map::<i64, Vec<i64>>::empty(),
                forall|id: i64| #[trigger]
                    ctx.id_to_file@.contains_key(id) ==> ctx.id_to_file@[id] < i,
                forall|id: i64| #[trigger]
                    file_by_id(all_files@.take(i as int), id) == ctx.found(id),
                forall|path: Seq<char>| #[trigger]
                    id_by_path(all_files@.take(i as int), path) == ctx.found_id(path),
            decreases n - i,
        {
            let ghost before = ctx;
            ctx.id_to_file.insert(all_files[i].id, i);
            ctx.path_to_id.insert(all_files[i].path.clone(), all_files[i].id);
            proof {
                let done = all_files@.take(i + 1);
                assert(done.drop_last() == all_files@.take(i as int));
                assert forall|id: i64| #[trigger] file_by_id(done, id) == ctx.found(id) by {
                    assert(file_by_id(all_files@.take(i as int), id) == before.found(id));
                }
                assert forall|path: Seq<char>| #[trigger]
                    id_by_path(done, path) == ctx.found_id(path) by {
                    assert(id_by_path(all_files@.take(i as int), path) == before.found_id(path));
                }
            }
            i = i + 1;
        }
        assert(all_files@.take(n as int) == all_files@);
        let m: usize = all_edges.len();
        let mut j: usize = 0;
        while j < m
            invariant
                m == all_edges@.len(),
                j <= m,
                ctx.all_files@ == all_files@,
                ctx.all_edges@ == all_edges@,
                forall|id: i64| #[trigger]
                    ctx.id_to_file@.contains_key(id) ==> ctx.id_to_file@[id] < all_files@.len(),
                forall|id: i64| #[trigger] file_by_id(all_files@, id) == ctx.found(id),
                forall|path: Seq<char>| #[trigger]
                    id_by_path(all_files@, path) == ctx.found_id(path),
                forall|id: i64| #[trigger]
                    targets(all_edges@.take(j as int), id) == listed(ctx.forward@, id),
                forall|id: i64| #[trigger]
                    sources(all_edges@.take(j as int), id) == listed(ctx.reverse@, id),
            decreases m - j,
        {
            let ghost before = ctx;
            let (from, to) = all_edges[j];
            if from != to {
                add_to_list(&mut ctx.forward, from, to);
                add_to_list(&mut ctx.reverse, to, from);
            }
            proof {
                let done = all_edges@.take(j + 1);
                let rest = all_edges@.take(j as int);
                assert(done.drop_last() == rest);
                assert forall|id: i64| #[trigger]
                    targets(done, id) == listed(ctx.forward@, id) by {
                    assert(targets(rest, id) == listed(before.forward@, id));
                }
                assert forall|id: i64| #[trigger]
                    sources(done, id) == listed(ctx.reverse@, id) by {
                    assert(sources(rest, id) == listed(before.reverse@, id));
                }
                assert forall|id: i64| #[trigger]
                    file_by_id(all_files@, id) == ctx.found(id) by {
                    assert(file_by_id(all_files@, id) == before.found(id));
                }
                assert forall|path: Seq<char>| #[trigger]
                    id_by_path(all_files@, path) == ctx.found_id(path) by {
                    assert(id_by_path(all_files@, path) == before.found_id(path));
                }
            }
            j = j + 1;
        }
        assert(all_edges@.take(m as int) == all_edges@);
        ctx
    }

    fn file(&self, id: i64) -> (r: Option<&FileRow>)
        requires
            self.well_formed(),
        ensures
            match r {
                Some(file) => file_by_id(self.files(), id) == Some(*file),
                None => file_by_id(self.files(), id) is None,
            },
    {
        assert(file_by_id(self.files(), id) == self.found(id));
        match self.id_to_file.get(&id) {
            Some(i) => Some(&self.all_files[*i]),
            None => None,
        }
    }

    /// The id of the file with a path, if the index knows the path.
    pub fn id_of(&self, path: &str) -> (r: Option<i64>)
        requires
            self.well_formed(),
        ensures
            r == id_by_path(self.files(), path@),
    {
        assert(id_by_path(self.files(), path@) == self.found_id(path@));
        match self.path_to_id.get(path) {
            Some(id) => Some(*id),
            None => None,
        }
    }

    fn imports(&self, id: i64) -> (r: Vec<i64>)
        requires
            self.well_formed(),
        ensures
            r@ == targets(self.edges(), id),
    {
        assert(targets(self.edges(), id) == listed(self.forward@, id));
        match self.forward.get(&id) {
            Some(list) => copied(list),
            None => Vec::new(),
        }
    }

    fn importers(&self, id: i64) -> (r: Vec<i64>)
        requires
            self.well_formed(),
        ensures
            r@ == sources(self.edges(), id),
    {
        assert(sources(self.edges(), id) == listed(self.reverse@, id));
        match self.reverse.get(&id) {
            Some(list) => copied(list),
            None => Vec::new(),
        }
    }
}

fn copied(list: &Vec<i64>) -> (r: Vec<i64>)
    ensures
        r@ == list@,
{
    let n: usize = list.len();
    let mut out: Vec<i64> = Vec::new();
    let mut i: usize = 0;
    while i < n
        invariant
            n == list@.len(),
            i <= n,
            out@ == list@.take(i as int),
        decreases n - i,
    {
        out.push(list[i]);
        assert(list@.take(i + 1) == list@.take(i as int).push(list@[i as int]));
        i = i + 1;
    }
    assert(list@.take(n as int) == list@);
    out
}

proof fn lemma_grouped_push(pairs: Seq<(Seq<char>, Seq<char>)>, pair: (Seq<char>, Seq<char>))
    ensures
        group_map::grouped(pairs.push(pair)) == group_map::with_value(
            group_map::grouped(pairs),
            pair.0,
            pair.1,
        ),
{
    assert(pairs.push(pair).drop_last() == pairs);
}

/// The number of test files among `files`.
pub open spec fn test_count(files: Seq<FileRow>) -> nat
    decreases files.len(),
{
    if files.len() == 0 {
        0
    } else {
        test_count(files.drop_last()) + if test_paths::test_path(files.last().path@) {
            1nat
        } else {
            0
        }
    }
}

fn count_tests(files: &Vec<FileRow>) -> (r: usize)
    ensures
        r == test_count(files@),
        r <= files@.len(),
{
    let n: usize = files.len();
    let mut count: usize = 0;
    let mut i: usize = 0;
    while i < n
        invariant
            n == files@.len(),
            count <= i <= n,
            count == test_count(files@.take(i as int)),
        decreases n - i,
    {
        assert(files@.take(i + 1).drop_last() == files@.take(i as int));
        if is_test_path(files[i].path.as_str()) {
            count = count + 1;
        }
        i = i + 1;
    }
    assert(files@.take(n as int) == files@);
    count
}

/// What follows the first five of `count` items.
pub open spec fn more_than_five(count: nat) -> Seq<char> {
    if count > 5 {
        "    ... and "@ + text::decimal((count - 5) as nat) + " more\n"@
    } else {
        Seq::empty()
    }
}

fn push_more_than_five(out: &mut String, count: usize)
    ensures
        final(out)@ == old(out)@ + more_than_five(count as nat),
{
    if count > 5 {
        let mut line = "    ... and ".to_owned();
        push_count(&mut line, count - 5);
        line.append(" more\n");
        out.append(line.as_str());
    } else {
        assert(out@ + Seq::<char>::empty() == out@);
    }
}

/// Whether the file with an id is a test file.
pub open spec fn is_test_id(files: Seq<FileRow>, id: i64) -> bool {
    match file_by_id(files, id) {
        Some(file) => test_paths::test_path(file.path@),
        None => false,
    }
}

proof fn lemma_file_by_id(files: Seq<FileRow>, i: int)
    requires
        0 <= i < files.len(),
        ids_distinct(files),
    ensures
        file_by_id(files, files[i].id) == Some(files[i]),
    decreases files.len(),
{
    if i < files.len() - 1 {
        assert(files.last() == files[files.len() - 1]);
        lemma_file_by_id(files.drop_last(), i);
    }
}

proof fn lemma_file_by_id_member(files: Seq<FileRow>, id: i64) -> (i: int)
    requires
        file_by_id(files, id) is Some,
    ensures
        0 <= i < files.len(),
        files[i].id == id,
        file_by_id(files, id) == Some(files[i]),
    decreases files.len(),
{
    if files.last().id == id {
        files.len() - 1
    } else {
        lemma_file_by_id_member(files.drop_last(), id)
    }
}

/// No two files share an id.
pub open spec fn ids_distinct(files: Seq<FileRow>) -> bool {
    forall|i: int, j: int|
        0 <= i < j < files.len() ==> (#[trigger] files[i]).id != (#[trigger] files[j]).id
}

/// No two files share a path.
pub open spec fn paths_distinct(files: Seq<FileRow>) -> bool {
    forall|i: int, j: int|
        0 <= i < j < files.len() ==> (#[trigger] files[i]).path@ != (#[trigger] files[j]).path@
}

/// The three questions that can be asked.
#[derive(Clone, Copy, Debug, PartialEq, Eq, Structural)]
pub enum TestGapsMode {
    Mapping,
    Gaps,
    Suggest,
}

/// The question that a name stands for.
pub open spec fn mode_named(mode: Seq<char>) -> Option<TestGapsMode> {
    if mode == "map"@ {
        Some(TestGapsMode::Mapping)
    } else if mode == "gaps"@ {
        Some(TestGapsMode::Gaps)
    } else if mode == "suggest"@ {
        Some(TestGapsMode::Suggest)
    } else {
        None
    }
}

/// The question that is asked: `gaps` where no name is given.
pub fn parse_mode(mode: Option<&str>) -> (r: Result<TestGapsMode, String>)
    ensures
        match mode {
            None => r == Ok::<TestGapsMode, String>(TestGapsMode::Gaps),
            Some(name) => match mode_named(name@) {
                Some(known) => r == Ok::<TestGapsMode, String>(known),
                None => r is Err && r->Err_0@ == "Unknown mode '"@ + name@
                    + "'. Use 'map', 'gaps', or 'suggest'."@,
            },
        },
{
    match mode {
        None => Ok(TestGapsMode::Gaps),
        Some(name) => {
            if same(name, "map") {
                Ok(TestGapsMode::Mapping)
            } else if same(name, "gaps") {
                Ok(TestGapsMode::Gaps)
            } else if same(name, "suggest") {
                Ok(TestGapsMode::Suggest)
            } else {
                let mut message = "Unknown mode '".to_owned();
                message.append(name);
                message.append("'. Use 'map', 'gaps', or 'suggest'.");
                Err(message)
            }
        },
    }
}

/// The range that `suggest` needs.
pub fn require_base(base: Option<&str>) -> (r: Result<&str, String>)
    ensures
        match base {
            Some(base) => r is Ok && r->Ok_0 == base,
            None => r is Err && r->Err_0@
                == "The 'suggest' mode requires a 'base' parameter (git diff range, e.g., 'main' or 'HEAD~3')."@,
        },
{
    match base {
        Some(base) => Ok(base),
        None => Err(
            "The 'suggest' mode requires a 'base' parameter (git diff range, e.g., 'main' or 'HEAD~3').".to_owned(),
        ),
    }
}

/// The number of rows to show: thirty where none is asked for.
pub fn row_limit(limit: Option<u32>) -> (r: usize)
    ensures
        r == match limit {
            Some(limit) => limit as int,
            None => 30,
        },
{
    match limit {
        Some(limit) => limit as usize,
        None => 30,
    }
}

/// A file imports exactly the files that an edge leads to from it, but for itself,
/// once for each edge; and it is imported along the same edges.
pub proof fn law_imports_are_the_edges(
    edges: Seq<(i64, i64)>,
    more: Seq<(i64, i64)>,
    from: i64,
    to: i64,
)
    ensures
        targets(edges, from).contains(to) <==> edges.contains((from, to)) && from != to,
        sources(edges, to).contains(from) <==> edges.contains((from, to)) && from != to,
        targets(edges + more, from) == targets(edges, from) + targets(more, from),
        sources(edges + more, to) == sources(edges, to) + sources(more, to),
        from != to ==> targets(seq![(from, to)], from) == seq![to],
        from != to ==> sources(seq![(from, to)], to) == seq![from],
    decreases more.len(),
{
    lemma_edges_hold(edges, from, to);
    assert(seq![(from, to)].drop_last() == Seq::<(i64, i64)>::empty());
    assert(seq![(from, to)].last() == (from, to));
    reveal_with_fuel(targets, 2);
    reveal_with_fuel(sources, 2);
    assert(Seq::<i64>::empty().push(to) == seq![to]);
    assert(Seq::<i64>::empty().push(from) == seq![from]);
    if more.len() == 0 {
        assert(edges + more == edges);
        assert(targets(edges, from) + targets(more, from) == targets(edges, from));
        assert(sources(edges, to) + sources(more, to) == sources(edges, to));
    } else {
        law_imports_are_the_edges(edges, more.drop_last(), from, to);
        assert((edges + more).drop_last() == edges + more.drop_last());
        assert((edges + more).last() == more.last());
        assert(targets(edges + more, from) == targets(edges, from) + targets(more, from));
        assert(sources(edges + more, to) == sources(edges, to) + sources(more, to));
    }
}

proof fn lemma_edges_hold(edges: Seq<(i64, i64)>, from: i64, to: i64)
    ensures
        targets(edges, from).contains(to) <==> edges.contains((from, to)) && from != to,
        sources(edges, to).contains(from) <==> edges.contains((from, to)) && from != to,
    decreases edges.len(),
{
    if edges.len() > 0 {
        let rest = edges.drop_last();
        let edge = edges.last();
        lemma_edges_hold(rest, from, to);
        assert(edges == rest.push(edge));
        order::lemma_contains_push(rest, edge, (from, to));
        order::lemma_contains_push(targets(rest, from), edge.1, to);
        order::lemma_contains_push(sources(rest, to), edge.0, from);
    }
}

/// A file is found by its id and by its path, the last one where several agree;
/// nothing is found where no file has the id or the path.
pub proof fn law_files_are_found(files: Seq<FileRow>, k: int, id: i64, path: Seq<char>)
    requires
        0 <= k < files.len(),
    ensures
        (forall|j: int| k < j < files.len() ==> (#[trigger] files[j]).id != files[k].id)
            ==> file_by_id(files, files[k].id) == Some(files[k]),
        (forall|j: int| k < j < files.len() ==> (#[trigger] files[j]).path@ != files[k].path@)
            ==> id_by_path(files, files[k].path@) == Some(files[k].id),
        (forall|j: int| 0 <= j < files.len() ==> (#[trigger] files[j]).id != id) ==> file_by_id(
            files,
            id,
        ) is None,
        (forall|j: int| 0 <= j < files.len() ==> (#[trigger] files[j]).path@ != path)
            ==> id_by_path(files, path) is None,
    decreases files.len(),
{
    let rest = files.drop_last();
    assert(files.last() == files[files.len() - 1]);
    if forall|j: int| 0 <= j < files.len() ==> (#[trigger] files[j]).id != id {
        lemma_no_file(files, id);
    }
    if forall|j: int| 0 <= j < files.len() ==> (#[trigger] files[j]).path@ != path {
        lemma_no_path(files, path);
    }
    if k < rest.len() {
        law_files_are_found(rest, k, id, path);
        assert(forall|j: int| 0 <= j < rest.len() ==> #[trigger] rest[j] == files[j]);
    }
}

proof fn lemma_no_file(files: Seq<FileRow>, id: i64)
    requires
        forall|j: int| 0 <= j < files.len() ==> (#[trigger] files[j]).id != id,
    ensures
        file_by_id(files, id) is None,
    decreases files.len(),
{
    if files.len() > 0 {
        let rest = files.drop_last();
        assert(files.last() == files[files.len() - 1]);
        assert(forall|j: int| 0 <= j < rest.len() ==> #[trigger] rest[j] == files[j]);
        lemma_no_file(rest, id);
    }
}

proof fn lemma_no_path(files: Seq<FileRow>, path: Seq<char>)
    requires
        forall|j: int| 0 <= j < files.len() ==> (#[trigger] files[j]).path@ != path,
    ensures
        id_by_path(files, path) is None,
    decreases files.len(),
{
    if files.len() > 0 {
        let rest = files.drop_last();
        assert(files.last() == files[files.len() - 1]);
        assert(forall|j: int| 0 <= j < rest.len() ==> #[trigger] rest[j] == files[j]);
        lemma_no_path(rest, path);
    }
}

/// Whether the test file at `test` imports the file `id`: an edge leads from a file
/// of that path to it.
pub open spec fn test_imports(
    files: Seq<FileRow>,
    edges: Seq<(i64, i64)>,
    test: Seq<char>,
    id: i64,
) -> bool {
    exists|from: i64| #[trigger]
        edges.contains((from, id)) && from != id && file_by_id(files, from) is Some && file_by_id(
            files,
            from,
        )->0.path@ == test && test_paths::test_path(test)
}

/// The number of test files is that of the files with the path of a test.
pub proof fn law_test_count(files: Seq<FileRow>)
    ensures
        test_count(files) == files.filter(|file: FileRow| test_paths::test_path(file.path@)).len(),
    decreases files.len(),
{
    reveal(Seq::filter);
    if files.len() > 0 {
        law_test_count(files.drop_last());
    }
}

/// Each question has its name, and no other name is a question.
pub proof fn law_modes(name: Seq<char>)
    ensures
        mode_named(name) == Some(TestGapsMode::Mapping) <==> name == "map"@,
        mode_named(name) == Some(TestGapsMode::Gaps) <==> name == "gaps"@,
        mode_named(name) == Some(TestGapsMode::Suggest) <==> name == "suggest"@,
{
    reveal_strlit("map");
    reveal_strlit("gaps");
    reveal_strlit("suggest");
    assert("map"@.len() != "gaps"@.len());
    assert("map"@.len() != "suggest"@.len());
    assert("gaps"@.len() != "suggest"@.len());
}

/// Thirty rows are shown by default, and else as many as are wanted.
pub proof fn law_row_limit(limit: Option<u32>, r: usize)
    requires
        call_ensures(row_limit, (limit,), r),
    ensures
        limit is None ==> r == 30,
        limit is Some ==> r == limit->0,
{
}

/// Gaps are asked for by default. A name of a question asks for it, and any other name
/// is refused with a message that holds it.
pub proof fn law_asked_question(mode: Option<&str>, r: Result<TestGapsMode, String>)
    requires
        call_ensures(parse_mode, (mode,), r),
    ensures
        mode is None ==> r == Ok::<TestGapsMode, String>(TestGapsMode::Gaps),
        mode is Some && mode->0@ == "map"@ ==> r == Ok::<TestGapsMode, String>(
            TestGapsMode::Mapping,
        ),
        mode is Some && mode->0@ == "gaps"@ ==> r == Ok::<TestGapsMode, String>(
            TestGapsMode::Gaps,
        ),
        mode is Some && mode->0@ == "suggest"@ ==> r == Ok::<TestGapsMode, String>(
            TestGapsMode::Suggest,
        ),
        mode is Some && mode->0@ != "map"@ && mode->0@ != "gaps"@ && mode->0@ != "suggest"@ ==> r
            is Err && text::contains_text(r->Err_0@, mode->0@),
{
    if let Some(name) = mode {
        law_modes(name@);
        text::lemma_holds("Unknown mode '"@, name@, "'. Use 'map', 'gaps', or 'suggest'."@);
    }
}

/// The range is what was given, and its absence an error.
pub proof fn law_base_is_needed<'a>(base: Option<&'a str>, r: Result<&'a str, String>)
    requires
        call_ensures(require_base, (base,), r),
    ensures
        r is Ok <==> base is Some,
        base is Some ==> r->Ok_0 == base->0,
{
}

/// Behind five items the others are counted.
pub proof fn law_more_than_five(count: nat)
    ensures
        count <= 5 ==> more_than_five(count).len() == 0,
        count > 5 ==> text::contains_text(
            more_than_five(count),
            " "@ + text::decimal((count - 5) as nat) + " more"@,
        ),
{
    if count > 5 {
        let digits = text::decimal((count - 5) as nat);
        reveal_strlit("    ... and ");
        reveal_strlit(" more\n");
        reveal_strlit(" more");
        reveal_strlit(" ");
        let n = "    ... and "@.len() - 1;
        assert("    ... and "@ == "    ... and "@.take(n) + " "@);
        assert(" more"@ == " more\n"@.subrange(0, 5));
        text::lemma_spans("    ... and "@.take(n), " "@, digits, " more\n"@, " more"@);
    }
}

}
