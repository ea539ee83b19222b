//! Extraction of module load bases from a process memory map: every mapped
//! region whose file offset is zero names, by the file name of its path, the
//! address at which that module is loaded.

use vstd::prelude::*;

verus! {

/// One region of a process memory map, reduced to what the extraction
/// reads: the start of its address range, its file offset, and its path if
/// the region is backed by a file.
#[derive(Debug, PartialEq)]
pub struct MapsRecord {
    pub begin: u64,
    pub offset: u64,
    pub pathname: Option<String>,
}

/// The model of one memory-map region.
#[verifier::ext_equal]
pub struct MapsRecordModel {
    pub begin: u64,
    pub offset: u64,
    pub pathname: Option<Seq<char>>,
}

impl View for MapsRecord {
    type V = MapsRecordModel;

    open spec fn view(&self) -> MapsRecordModel {
        MapsRecordModel {
            begin: self.begin,
            offset: self.offset,
            pathname: match self.pathname {
                Some(p) => Some(p@),
                None => None,
            },
        }
    }
}

/// A zero-offset region whose path yields no file name.
#[derive(Debug)]
pub struct ProcMapsError {
    pub path: String,
}

/// `p` without its trailing path separators.
pub open spec fn spec_drop_trailing_slashes(p: Seq<char>) -> Seq<char>
    decreases p.len(),
{
    if p.len() == 0 || p.last() != '/' {
        p
    } else {
        spec_drop_trailing_slashes(p.drop_last())
    }
}

/// The characters of `t` after its last path separator; all of `t` when it
/// has none.
pub open spec fn spec_after_last_slash(t: Seq<char>) -> Seq<char>
    decreases t.len(),
{
    if t.len() == 0 {
        t
    } else if t.last() == '/' {
        Seq::empty()
    } else {
        spec_after_last_slash(t.drop_last()).push(t.last())
    }
}

/// The file name of a path: the component after the last separator, once
/// trailing separators are dropped; a path whose last component is empty or
/// a parent-directory reference has none.
pub open spec fn spec_file_name(p: Seq<char>) -> Option<Seq<char>> {
    let name = spec_after_last_slash(spec_drop_trailing_slashes(p));
    if name.len() == 0 || name == ".."@ {
        None
    } else {
        Some(name)
    }
}

proof fn lemma_drop_trailing_slashes(p: Seq<char>, j: int)
    requires
        0 <= j <= p.len(),
        forall|k: int| j <= k < p.len() ==> p[k] == '/',
        j == 0 || p[j - 1] != '/',
    ensures
        spec_drop_trailing_slashes(p) == p.take(j),
    decreases p.len(),
{
    if j == p.len() {
        assert(p.take(j) =~= p);
    } else {
        assert(p.last() == '/');
        assert(p.drop_last() =~= p.take(p.len() - 1));
        lemma_drop_trailing_slashes(p.take(p.len() - 1), j);
        assert(p.take(p.len() - 1).take(j) =~= p.take(j));
    }
}

proof fn lemma_after_last_slash(t: Seq<char>, j: int)
    requires
        0 <= j <= t.len(),
        forall|k: int| j <= k < t.len() ==> t[k] != '/',
        j == 0 || t[j - 1] == '/',
    ensures
        spec_after_last_slash(t) == t.skip(j),
    decreases t.len(),
{
    if t.len() == 0 {
        assert(t.skip(j) =~= t);
    } else if t.last() == '/' {
        assert(j == t.len());
        assert(t.skip(j) =~= Seq::<char>::empty());
    } else {
        assert(j <= t.len() - 1);
        assert(t.drop_last() =~= t.take(t.len() - 1));
        lemma_after_last_slash(t.take(t.len() - 1), j);
        assert(t.take(t.len() - 1).skip(j).push(t.last()) =~= t.skip(j));
    }
}

/// The file name of a path, as `spec_file_name` gives it.
pub fn file_name_of_path(p: &str) -> (r: Option<String>)
    ensures
        (match r {
            Some(name) => spec_file_name(p@) == Some(name@),
            None => spec_file_name(p@) is None,
        }),
{
    let n = p.unicode_len();
    let mut j = n;
    loop
        invariant
            0 <= j <= n,
            n == p@.len(),
            forall|k: int| j <= k < n ==> p@[k] == '/',
        ensures
            0 <= j <= n,
            forall|k: int| j <= k < n ==> p@[k] == '/',
            j == 0 || p@[j - 1] != '/',
        decreases j,
    {
        if j == 0 {
            break ;
        }
        if p.get_char(j - 1) != '/' {
            break ;
        }
        j = j - 1;
    }
    proof {
        lemma_drop_trailing_slashes(p@, j as int);
    }
    let mut i = j;
    loop
        invariant
            0 <= i <= j <= n,
            n == p@.len(),
            forall|k: int| i <= k < j ==> p@[k] != '/',
        ensures
            0 <= i <= j,
            forall|k: int| i <= k < j ==> p@[k] != '/',
            i == 0 || p@[i - 1] == '/',
        decreases i,
    {
        if i == 0 {
            break ;
        }
        if p.get_char(i - 1) == '/' {
            break ;
        }
        i = i - 1;
    }
    proof {
        let t = p@.take(j as int);
        lemma_after_last_slash(t, i as int);
        assert(t.skip(i as int) =~= p@.subrange(i as int, j as int));
    }
    let name = p.substring_char(i, j);
    if name.unicode_len() == 0 {
        return None;
    }
    if name.unicode_len() == 2 {
        if name.get_char(0) == '.' && name.get_char(1) == '.' {
            proof {
                reveal_strlit("..");
                assert(name@ =~= ".."@);
            }
            return None;
        }
    }
    proof {
        reveal_strlit("..");
        if name@ == ".."@ {
            assert(name@.len() == 2 && name@[0] == '.' && name@[1] == '.');
        }
    }
    Some(name.to_owned())
}

/// The index of the first pair of `m` whose name is `k`, or `-1`.
pub open spec fn find_name(m: Seq<(Seq<char>, u64)>, k: Seq<char>) -> int
    decreases m.len(),
{
    if m.len() == 0 {
        -1
    } else if m[0].0 == k {
        0
    } else {
        let r = find_name(m.drop_first(), k);
        if r < 0 {
            -1
        } else {
            1 + r
        }
    }
}

proof fn lemma_find_name_at(m: Seq<(Seq<char>, u64)>, k: Seq<char>, i: int)
    requires
        0 <= i < m.len(),
        forall|j: int| 0 <= j < i ==> m[j].0 != k,
        m[i].0 == k,
    ensures
        find_name(m, k) == i,
    decreases i,
{
    if i > 0 {
        lemma_find_name_at(m.drop_first(), k, i - 1);
    }
}

proof fn lemma_find_name_none(m: Seq<(Seq<char>, u64)>, k: Seq<char>)
    requires
        forall|j: int| 0 <= j < m.len() ==> m[j].0 != k,
    ensures
        find_name(m, k) == -1,
    decreases m.len(),
{
    if m.len() > 0 {
        lemma_find_name_none(m.drop_first(), k);
    }
}

/// The map `m` with `k` bound to `v`: the first pair holding `k` is
/// replaced, or the pair is appended.
pub open spec fn spec_insert_base(m: Seq<(Seq<char>, u64)>, k: Seq<char>, v: u64) -> Seq<
    (Seq<char>, u64),
> {
    let i = find_name(m, k);
    if i < 0 {
        m.push((k, v))
    } else {
        m.update(i, (k, v))
    }
}

/// Walks the records from `i` on: each zero-offset file-backed region binds
/// its path's file name to the start of its address range, later regions
/// overriding earlier ones; a qualifying path without a file name fails the
/// walk with that path.
pub open spec fn spec_proc_maps_from(
    records: Seq<MapsRecordModel>,
    i: int,
    acc: Seq<(Seq<char>, u64)>,
) -> Result<Seq<(Seq<char>, u64)>, Seq<char>>
    decreases records.len() - i,
        when 0 <= i
{
    if i >= records.len() {
        Ok(acc)
    } else {
        let r = records[i];
        if r.offset == 0 && r.pathname is Some {
            match spec_file_name(r.pathname->0) {
                None => Err(r.pathname->0),
                Some(name) => spec_proc_maps_from(
                    records,
                    i + 1,
                    spec_insert_base(acc, name, r.begin),
                ),
            }
        } else {
            spec_proc_maps_from(records, i + 1, acc)
        }
    }
}

/// The view of a sequence of memory-map records: each as its model.
pub open spec fn view_records(s: Seq<MapsRecord>) -> Seq<MapsRecordModel> {
    s.map_values(|r: MapsRecord| r@)
}

/// The view of the name-to-base list.
pub open spec fn view_bases(s: Seq<(String, u64)>) -> Seq<(Seq<char>, u64)> {
    s.map_values(|p: (String, u64)| (p.0@, p.1))
}

/// Extracts each module's load base from the memory-map records: every
/// region with file offset zero and a file-backed path binds the path's file
/// name to the start of its address range, later regions overriding earlier
/// ones. A qualifying region whose path has no file name fails the call
/// with that path.
pub fn parse_proc_maps(records: &Vec<MapsRecord>) -> (r: Result<Vec<(String, u64)>, ProcMapsError>)
    ensures
        (match r {
            Ok(bases) => spec_proc_maps_from(view_records(records@), 0, Seq::empty()) == Ok::<
                Seq<(Seq<char>, u64)>,
                Seq<char>,
            >(view_bases(bases@)),
            Err(e) => spec_proc_maps_from(view_records(records@), 0, Seq::empty()) == Err::<
                Seq<(Seq<char>, u64)>,
                Seq<char>,
            >(e.path@),
        }),
{
    let mut bases: Vec<(String, u64)> = Vec::new();
    let n = records.len();
    let mut i: usize = 0;
    proof {
        assert(view_bases(bases@) =~= Seq::<(Seq<char>, u64)>::empty());
    }
    while i < n
        invariant
            0 <= i <= n,
            n == records@.len(),
            spec_proc_maps_from(view_records(records@), 0, Seq::empty()) == spec_proc_maps_from(
                view_records(records@),
                i as int,
                view_bases(bases@),
            ),
        decreases n - i,
    {
        let ghost rm = view_records(records@)[i as int];
        proof {
            assert(rm == records@[i as int]@);
        }
        let qualifies = records[i].offset == 0 && records[i].pathname.is_some();
        if qualifies {
            let path = match &records[i].pathname {
                Some(p) => p,
                None => {
                    proof {
                        assert(false);
                    }
                    return Err(ProcMapsError { path: String::new() });
                },
            };
            match file_name_of_path(path.as_str()) {
                None => {
                    return Err(ProcMapsError { path: path.clone() });
                },
                Some(name) => {
                    let begin = records[i].begin;
                    let ghost ms = view_bases(bases@);
                    let m = bases.len();
                    let mut j: usize = 0;
                    loop
                        invariant
                            0 <= j <= m,
                            m == bases@.len(),
                            ms == view_bases(bases@),
                            forall|k: int| 0 <= k < j ==> ms[k].0 != name@,
                        ensures
                            0 <= j <= m,
                            ms == view_bases(bases@),
                            forall|k: int| 0 <= k < j ==> ms[k].0 != name@,
                            j == m || ms[j as int].0 == name@,
                        decreases m - j,
                    {
                        if j >= m {
                            break ;
                        }
                        if bases[j].0 == name {
                            proof {
                                assert(ms[j as int].0 == name@);
                            }
                            break ;
                        }
                        proof {
                            assert(ms[j as int].0 != name@);
                        }
                        j = j + 1;
                    }
                    if j < m {
                        proof {
                            lemma_find_name_at(ms, name@, j as int);
                        }
                        let entry = vstd::std_specs::vec::vec_index_mut(&mut bases, j);
                        *entry = (name, begin);
                        proof {
                            assert(view_bases(bases@) =~= ms.update(j as int, (name@, begin)));
                        }
                    } else {
                        proof {
                            lemma_find_name_none(ms, name@);
                        }
                        bases.push((name, begin));
                        proof {
                            assert(view_bases(bases@) =~= ms.push((name@, begin)));
                        }
                    }
                },
            }
        }
        i = i + 1;
    }
    Ok(bases)
}

} // verus!
