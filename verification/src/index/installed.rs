//! The plain list of installed applications that a search without a query
//! shows.
use crate::bytes::lex_le;
use crate::index::search::SearchResult;
use crate::index::store::IndexStore;
use crate::sort::{
    is_order, key_le, keys_of, lemma_place, lemma_small, stable_order, SortKey,
};
use crate::text::{lowercase, str_eq};
use vstd::prelude::*;
use vstd::utf8::encode_utf8;

verus! {

/// An installed application, as the uninstall list names it.
#[derive(Debug)]
pub struct AppInfo {
    pub name: String,
    pub path: Option<String>,
    pub version: Option<String>,
}

impl Clone for AppInfo {
    fn clone(&self) -> (r: Self)
        ensures
            r == *self,
    {
        let path = match &self.path {
            Some(p) => Some(p.clone()),
            None => None,
        };
        let version = match &self.version {
            Some(v) => Some(v.clone()),
            None => None,
        };
        AppInfo { name: self.name.clone(), path, version }
    }
}

/// Some entry has a name.
pub open spec fn named(apps: Seq<AppInfo>, name: Seq<char>) -> bool {
    exists|i: int| 0 <= i < apps.len() && (#[trigger] apps[i]).name@ == name
}

/// The entries with a name, without those whose name an earlier entry has.
pub open spec fn distinct_apps(apps: Seq<AppInfo>) -> Seq<AppInfo>
    decreases apps.len(),
{
    if apps.len() == 0 {
        apps
    } else if apps.last().name@.len() == 0 || named(
        distinct_apps(apps.drop_last()),
        apps.last().name@,
    ) {
        distinct_apps(apps.drop_last())
    } else {
        distinct_apps(apps.drop_last()).push(apps.last())
    }
}

/// What the entries are ordered by: the name in lowercase.
pub open spec fn app_order(apps: Seq<AppInfo>) -> Seq<(u64, Seq<u8>)> {
    apps.map_values(|a: AppInfo| (0u64, encode_utf8(lowercase(a.name@))))
}

/// Whether some entry has a name.
fn has_name(apps: &Vec<AppInfo>, name: &str) -> (r: bool)
    ensures
        r == named(apps@, name@),
{
    let mut i: usize = 0;
    while i < apps.len()
        invariant
            i <= apps.len(),
            forall|k: int| 0 <= k < i ==> (#[trigger] apps@[k]).name@ != name@,
        decreases apps.len() - i,
    {
        if str_eq(apps[i].name.as_str(), name) {
            assert(apps@[i as int].name@ == name@);
            return true;
        }
        i = i + 1;
    }
    false
}

/// `r` lists the distinct applications of `found` in order; equal names stay in
/// their order.
pub open spec fn lists_apps(r: Seq<AppInfo>, found: Seq<AppInfo>) -> bool {
    let all = distinct_apps(found);
    exists|order: Seq<usize>|
        {
            &&& #[trigger] is_order(order, app_order(all))
            &&& r.len() == all.len()
            &&& forall|i: int| 0 <= i < r.len() ==> (#[trigger] r[i]) == all[order[i] as int]
        }
}

/// The installed applications: one per display name, ordered by the name in
/// lowercase. `found` lists what the uninstall lists name, in their order.
pub fn get_installed_apps(found: &Vec<AppInfo>) -> (r: Vec<AppInfo>)
    ensures
        lists_apps(r@, found@),
{
    let mut all: Vec<AppInfo> = Vec::new();
    let mut keys: Vec<SortKey> = Vec::new();
    let mut i: usize = 0;
    assert(found@.take(0) =~= Seq::<AppInfo>::empty());
    assert(keys_of(keys@) =~= app_order(all@));
    while i < found.len()
        invariant
            i <= found.len(),
            all@ == distinct_apps(found@.take(i as int)),
            keys_of(keys@) == app_order(all@),
        decreases found.len() - i,
    {
        assert(found@.take(i + 1).drop_last() =~= found@.take(i as int));
        assert(found@.take(i + 1).last() == found@[i as int]);
        let ghost before = all@;
        let ghost before_keys = keys@;
        if !found[i].name.as_str().is_empty() && !has_name(&all, found[i].name.as_str()) {
            let low = found[i].name.as_str().to_lowercase();
            keys.push(
                SortKey { num: 0, text: vstd::slice::slice_to_vec(low.as_str().as_bytes()) },
            );
            all.push(found[i].clone());
            assert(keys_of(keys@) =~= keys_of(before_keys).push(
                (0u64, encode_utf8(lowercase(found@[i as int].name@))),
            ));
            assert(app_order(all@) =~= app_order(before).push(
                (0u64, encode_utf8(lowercase(found@[i as int].name@))),
            ));
        }
        i = i + 1;
    }
    assert(found@.take(i as int) =~= found@);
    let order = stable_order(&keys);
    assert(order.len() == all.len());
    let mut out: Vec<AppInfo> = Vec::new();
    let mut k: usize = 0;
    while k < order.len()
        invariant
            k <= order.len(),
            out.len() == k,
            is_order(order@, app_order(all@)),
            forall|m: int| 0 <= m < k ==> (#[trigger] out@[m]) == all@[order@[m] as int],
        decreases order.len() - k,
    {
        assert(order@[k as int] < app_order(all@).len());
        out.push(all[order[k]].clone());
        k = k + 1;
    }
    out
}

/// The row of an application: its folder, or an empty path.
pub open spec fn is_app_result(r: SearchResult, app: AppInfo) -> bool {
    &&& r.full_path@ == if app.path is Some {
        app.path->0@
    } else {
        Seq::empty()
    }
    &&& r.name@ == app.name@
    &&& r.rank == 0
    &&& !r.is_dir
    &&& r.modified_time is None
    &&& r.file_type_priority == 0
}

/// The first installed applications, as search results. The index does not
/// matter.
pub fn apps(_store: &IndexStore, installed: &Vec<AppInfo>, limit: usize) -> (r: Vec<SearchResult>)
    ensures
        r.len() == if installed.len() < limit {
            installed.len() as int
        } else {
            limit as int
        },
        forall|i: int| 0 <= i < r.len() ==> is_app_result(#[trigger] r@[i], installed@[i]),
{
    let mut out: Vec<SearchResult> = Vec::new();
    let mut i: usize = 0;
    while i < installed.len() && i < limit
        invariant
            i <= installed.len(),
            i <= limit,
            out.len() == i,
            forall|k: int| 0 <= k < i ==> is_app_result(#[trigger] out@[k], installed@[k]),
        decreases installed.len() - i,
    {
        let full_path = match &installed[i].path {
            Some(p) => p.clone(),
            None => String::new(),
        };
        assert(installed@[i as int].path is None ==> full_path@ =~= Seq::<char>::empty());
        out.push(
            SearchResult {
                full_path,
                name: installed[i].name.clone(),
                rank: 0,
                is_dir: false,
                modified_time: None,
                file_type_priority: 0,
            },
        );
        i = i + 1;
    }
    out
}

/// The list of applications holds each name once, and every name that was found
/// but the empty one, with what its first entry says, in the order of the
/// lowercased names.
pub proof fn law_each_name_is_listed_once(r: Seq<AppInfo>, found: Seq<AppInfo>)
    requires
        lists_apps(r, found),
    ensures
        forall|i: int, j: int|
            0 <= i < j < r.len() ==> (#[trigger] r[i]).name@ != (#[trigger] r[j]).name@ && lex_le(
                encode_utf8(lowercase(r[i].name@)),
                encode_utf8(lowercase(r[j].name@)),
            ),
        forall|i: int|
            0 <= i < r.len() ==> (#[trigger] r[i]).name@.len() > 0 && is_first_named(found, r[i]),
        forall|k: int|
            0 <= k < found.len() && (#[trigger] found[k]).name@.len() > 0 ==> named(
                r,
                found[k].name@,
            ),
{
    let all = distinct_apps(found);
    let keys = app_order(all);
    let order = choose|order: Seq<usize>|
        {
            &&& #[trigger] is_order(order, app_order(all))
            &&& r.len() == all.len()
            &&& forall|i: int| 0 <= i < r.len() ==> (#[trigger] r[i]) == all[order[i] as int]
        };
    lemma_distinct(found);
    assert forall|i: int, j: int| 0 <= i < j < r.len() implies (#[trigger] r[i]).name@ != (
    #[trigger] r[j]).name@ && lex_le(
        encode_utf8(lowercase(r[i].name@)),
        encode_utf8(lowercase(r[j].name@)),
    ) by {
        let (a, b) = (order[i] as int, order[j] as int);
        assert(order[i] < keys.len() && order[j] < keys.len());
        assert(order[i] != order[j]);
        if a < b {
            assert(all[a].name@ != all[b].name@);
        } else {
            assert(all[b].name@ != all[a].name@);
        }
        assert(key_le(keys[a], keys[b]));
    }
    assert forall|i: int| 0 <= i < r.len() implies (#[trigger] r[i]).name@.len() > 0
        && is_first_named(found, r[i]) by {
        assert(order[i] < keys.len());
        assert(is_first_named(found, all[order[i] as int]));
    }
    assert forall|k: int| 0 <= k < found.len() && (#[trigger] found[k]).name@.len() > 0 implies named(
        r,
        found[k].name@,
    ) by {
        assert(named(all, found[k].name@));
        let w = choose|w: int| 0 <= w < all.len() && (#[trigger] all[w]).name@ == found[k].name@;
        lemma_small(order);
        let at = lemma_place(order, keys, w as usize);
        assert(r[at] == all[w]);
    }
}

/// The entry is the first one of its name.
pub open spec fn is_first_named(found: Seq<AppInfo>, app: AppInfo) -> bool {
    exists|k: int|
        0 <= k < found.len() && #[trigger] found[k] == app && forall|m: int|
            0 <= m < k ==> (#[trigger] found[m]).name@ != app.name@
}

proof fn lemma_distinct(found: Seq<AppInfo>)
    ensures
        ({
            let all = distinct_apps(found);
            &&& forall|i: int, j: int|
                0 <= i < j < all.len() ==> (#[trigger] all[i]).name@ != (#[trigger] all[j]).name@
            &&& forall|i: int|
                0 <= i < all.len() ==> (#[trigger] all[i]).name@.len() > 0 && is_first_named(
                    found,
                    all[i],
                )
            &&& forall|k: int|
                0 <= k < found.len() && (#[trigger] found[k]).name@.len() > 0 ==> named(
                    all,
                    found[k].name@,
                )
        }),
    decreases found.len(),
{
    if found.len() > 0 {
        let head = found.drop_last();
        let was = distinct_apps(head);
        let all = distinct_apps(found);
        let last = found.last();
        lemma_distinct(head);
        assert forall|k: int| 0 <= k < head.len() implies (#[trigger] head[k]) == found[k] by {}
        assert forall|i: int| 0 <= i < all.len() implies (#[trigger] all[i]).name@.len() > 0
            && is_first_named(found, all[i]) by {
            if i < was.len() {
                assert(all[i] == was[i]);
                assert(is_first_named(head, was[i]));
                let k = choose|k: int|
                    0 <= k < head.len() && #[trigger] head[k] == was[i] && forall|m: int|
                        0 <= m < k ==> (#[trigger] head[m]).name@ != was[i].name@;
                assert(found[k] == was[i]);
                assert forall|m: int| 0 <= m < k implies (#[trigger] found[m]).name@
                    != was[i].name@ by {
                    assert(head[m] == found[m]);
                }
            } else {
                let k = found.len() - 1;
                assert(found[k] == all[i]);
                assert forall|m: int| 0 <= m < k implies (#[trigger] found[m]).name@
                    != all[i].name@ by {
                    assert(head[m] == found[m]);
                    if head[m].name@ == last.name@ {
                        assert(named(was, head[m].name@));
                    }
                }
            }
        }
        assert forall|i: int, j: int| 0 <= i < j < all.len() implies (#[trigger] all[i]).name@ != (
        #[trigger] all[j]).name@ by {
            assert(all[i] == was[i]);
            if j < was.len() {
                assert(all[j] == was[j]);
            }
        }
        assert forall|k: int|
            0 <= k < found.len() && (#[trigger] found[k]).name@.len() > 0 implies named(
            all,
            found[k].name@,
        ) by {
            if k < head.len() {
                assert(head[k] == found[k]);
                assert(named(was, head[k].name@));
                let w = choose|w: int|
                    0 <= w < was.len() && (#[trigger] was[w]).name@ == head[k].name@;
                assert(all[w] == was[w]);
            } else if named(was, last.name@) {
                let w = choose|w: int| 0 <= w < was.len() && (#[trigger] was[w]).name@ == last.name@;
                assert(all[w] == was[w]);
            } else {
                assert(all[was.len() as int] == last);
            }
        }
    }
}

/// The row of an installed application is a file under the application's name; it
/// leads to the application's path, and nowhere where that is not known.
pub proof fn law_row_of_an_installed_app(r: SearchResult, app: AppInfo)
    requires
        is_app_result(r, app),
    ensures
        r.name@ == app.name@,
        app.path is Some ==> r.full_path@ == app.path->0@,
        app.path is None ==> r.full_path@.len() == 0,
        !r.is_dir && r.rank == 0,
{
}

} // verus!
