//! When a copy of what a registry said may be used, and what is kept of an
//! answer.

use vstd::prelude::*;
use crate::directory::{ancestors, ancestors_of, create_all, missing_levels, path_text};
use crate::linker::step_text;
use crate::metadata_cache::{
    concluded, consulted, judged, ConsultedModel, Entry, Lookup, LookupModel, MetadataCache,
    StoredModel,
};
use crate::path::{is_absolute, put_after, step_of, steps, steps_of, Step};
use crate::registry::{FetchedModel, Freshness, PackumentModel, RegistryFault};
use crate::text::{joined, pieces, pieces_hold_no_separator};

verus! {

/// A copy is fresh exactly while less than the window has gone by since it was
/// fetched. One that was fetched in the future is not fresh: the clock was
/// changed, and nobody knows how old it is. Either way what was kept is handed
/// on with its tag.
pub proof fn copies_are_fresh_inside_the_window(
    cache: &MetadataCache,
    entry: Option<Entry>,
    now: u64,
    lookup: Lookup,
)
    requires
        call_ensures(MetadataCache::get, (cache, entry, now), lookup),
    ensures
        match entry.deep_view() {
            None => lookup.deep_view() is Missing,
            Some(kept) => {
                let window = cache.deep_view().window;
                &&& lookup.deep_view() is Fresh <==> kept.fetched_at <= now && now - kept.fetched_at
                    < window
                &&& match lookup.deep_view() {
                    LookupModel::Fresh { packument, etag } => packument == kept.packument && etag
                        == kept.etag,
                    LookupModel::Stale { packument, etag, age } => packument == kept.packument
                        && etag == kept.etag && age == if kept.fetched_at <= now {
                        now - kept.fetched_at
                    } else {
                        0
                    },
                    LookupModel::Missing => false,
                }
            },
        },
{
}

/// A copy that has gone stale does not become fresh again, and one that is
/// fresh was so all along.
pub proof fn freshness_only_runs_out(kept: StoredModel, window: u64, earlier: u64, later: u64)
    requires
        kept.fetched_at <= earlier <= later,
    ensures
        judged(Some(kept), window, later) is Fresh ==> judged(Some(kept), window, earlier) is Fresh,
{
}

/// The registry is spared exactly where a fresh copy is there and a copy will
/// do. It is asked about everything else, with the tag of whatever is there.
pub proof fn only_fresh_copies_spare_the_registry(lookup: LookupModel, freshness: Freshness)
    ensures
        consulted(lookup, freshness) is Serve <==> lookup is Fresh && freshness
            == Freshness::MayBeCached,
        match (lookup, consulted(lookup, freshness)) {
            (LookupModel::Fresh { packument, .. }, ConsultedModel::Serve(served)) => served
                == packument,
            (
                LookupModel::Fresh { packument, etag },
                ConsultedModel::Ask { stored, etag: sent, age },
            ) => stored == Some(packument) && sent == etag && age is None,
            (
                LookupModel::Stale { packument, etag, age },
                ConsultedModel::Ask { stored, etag: sent, age: said },
            ) => stored == Some(packument) && sent == etag && said == Some(age),
            (LookupModel::Missing, ConsultedModel::Ask { stored, etag, age }) => stored is None
                && etag is None && age is None,
            _ => false,
        },
{
}

/// What the registry sends is the answer and is kept with its tag. What it
/// confirms is the answer too, and is kept anew with the tag that it has. What
/// it fails to say is never kept, and a copy that is too old is spoken of and
/// not used.
pub proof fn answers_are_kept_with_their_tags(
    name: Seq<char>,
    stored: Option<PackumentModel>,
    etag: Option<Seq<char>>,
    age: Option<u64>,
    fetched: Result<FetchedModel, RegistryFault>,
)
    ensures
        ({
            let said = concluded(name, stored, etag, age, fetched);
            match fetched {
                Ok(FetchedModel::Body { packument, etag: sent }) => said.answer == Ok::<
                    PackumentModel,
                    RegistryFault,
                >(packument) && said.store && said.etag == sent,
                Ok(FetchedModel::NotModified) => match stored {
                    Some(packument) => said.answer == Ok::<PackumentModel, RegistryFault>(packument)
                        && said.store && said.etag == etag,
                    None => said.answer is Err && !said.store,
                },
                Err(fault) => said.answer is Err && !said.store && (age is None ==> said.answer
                    == Err::<PackumentModel, RegistryFault>(fault)) && (age is Some ==> said.answer
                    == Err::<PackumentModel, RegistryFault>(
                    RegistryFault::StaleCacheOnly { name, age: age->0, source: Box::new(fault) },
                )),
            }
        }),
{
}

proof fn joined_onto(parts: Seq<Seq<char>>, last: Seq<char>)
    ensures
        joined(parts.push(last), '/') == if parts.len() == 0 {
            last
        } else {
            joined(parts, '/').push('/') + last
        },
{
    assert(parts.push(last).drop_last() =~= parts);
}

/// The text of some steps is the text of all but the last of them with that
/// one put after it.
proof fn text_goes_step_by_step(taken: Seq<Step>)
    requires
        taken.len() > 0,
        !(taken.last() is Root),
        !is_absolute(step_text(taken.last())),
        forall|i: int| 0 <= i < taken.len() ==> {
            &&& (#[trigger] step_text(taken[i])).len() > 0
            &&& taken[i] is Root ==> i == 0
            &&& !(taken[i] is Root) ==> step_text(taken[i]).last() != '/'
        },
    ensures
        path_text(taken) == put_after(path_text(taken.drop_last()), step_text(taken.last())),
{
    let before = taken.drop_last();
    let last = step_text(taken.last());
    if before.len() > 0 && taken[0] is Root {
        let parts = before.skip(1).map_values(|step: Step| step_text(step));
        let all = taken.skip(1).map_values(|step: Step| step_text(step));
        assert(all =~= parts.push(last));
        joined_onto(parts, last);
        if parts.len() == 0 {
            assert(path_text(before) =~= seq!['/']);
            assert(path_text(taken) =~= seq!['/'] + last);
        } else {
            ends_with_its_last(parts);
            assert(parts.last() == step_text(before.last()));
            assert(before.last() == taken[before.len() - 1]);
            assert(path_text(before).last() == parts.last().last());
            assert(path_text(taken) =~= path_text(before).push('/') + last);
        }
    } else {
        let parts = before.map_values(|step: Step| step_text(step));
        let all = taken.map_values(|step: Step| step_text(step));
        assert(all =~= parts.push(last));
        joined_onto(parts, last);
        if parts.len() == 0 {
            assert(path_text(before) =~= seq![]);
            assert(path_text(taken) =~= last);
            assert(seq![] + last =~= last);
        } else {
            assert(!(taken[0] is Root));
            ends_with_its_last(parts);
            assert(parts.last() == step_text(before.last()));
            assert(before.last() == taken[before.len() - 1]);
        }
    }
}

proof fn ends_with_its_last(parts: Seq<Seq<char>>)
    requires
        parts.len() > 0,
        parts.last().len() > 0,
    ensures
        joined(parts, '/').len() > 0,
        joined(parts, '/').last() == parts.last().last(),
{
}

/// What the steps of some segments are made of.
proof fn steps_have_text(segments: Seq<Seq<char>>)
    requires
        forall|i: int| 0 <= i < segments.len() ==> !(#[trigger] segments[i]).contains('/'),
    ensures
        forall|i: int|
            0 <= i < steps_of(segments).len() ==> {
                let step = #[trigger] steps_of(segments)[i];
                &&& !(step is Root)
                &&& step_text(step).len() > 0
                &&& !step_text(step).contains('/')
            },
    decreases segments.len(),
{
    if segments.len() > 0 {
        let shorter = segments.drop_last();
        assert forall|i: int| 0 <= i < shorter.len() implies !(#[trigger] shorter[i]).contains(
            '/',
        ) by {
            assert(shorter[i] == segments[i]);
        }
        steps_have_text(shorter);
        let last = segments[segments.len() - 1];
        assert(!last.contains('/'));
        let before = steps_of(shorter);
        let all = steps_of(segments);
        assert(all == before + step_of(last));
        assert forall|i: int| 0 <= i < all.len() implies {
            let step = #[trigger] all[i];
            &&& !(step is Root)
            &&& step_text(step).len() > 0
            &&& !step_text(step).contains('/')
        } by {
            if i < before.len() {
                assert(all[i] == before[i]);
            } else {
                assert(all[i] == step_of(last)[i - before.len()]);
            }
        }
    }
}

/// The directories above a path go up one step at a time: each, with one more
/// step put after it, is the one before it, and the last of them is the
/// filesystem root, or the directory one is in.
pub proof fn ancestors_go_up_step_by_step(path: &str, dirs: Vec<String>, i: int)
    requires
        call_ensures(ancestors, (path,), dirs),
        0 <= i < dirs.deep_view().len(),
    ensures
        ({
            let above = dirs.deep_view();
            let taken = steps(path@);
            &&& above[0] == path_text(taken)
            &&& i + 1 < above.len() ==> above[i] == put_after(
                above[i + 1],
                step_text(taken[taken.len() - 1 - i]),
            )
            &&& i + 1 == above.len() ==> above[i] == if is_absolute(path@) {
                seq!['/']
            } else {
                seq![]
            }
        }),
{
    let taken = steps(path@);
    let segments = pieces(path@, '/');
    pieces_hold_no_separator(path@, '/');
    steps_have_text(segments);
    let n = taken.len() - i;
    let some = taken.take(n);
    assert(taken.take(taken.len() as int) =~= taken);
    assert forall|k: int| 0 <= k < taken.len() implies {
        &&& (#[trigger] step_text(taken[k])).len() > 0
        &&& taken[k] is Root ==> k == 0
        &&& !(taken[k] is Root) ==> !step_text(taken[k]).contains('/')
    } by {
        let opening = taken.len() - steps_of(segments).len();
        if k >= opening {
            assert(taken[k] == steps_of(segments)[k - opening]);
        }
    }
    assert(is_absolute(path@) <==> taken.len() > 0 && taken[0] is Root) by {
        if !is_absolute(path@) && taken.len() > 0 {
            let opening = taken.len() - steps_of(segments).len();
            if opening == 0 {
                assert(taken[0] == steps_of(segments)[0]);
            }
        }
    }
    if i + 1 < ancestors_of(path@).len() {
        assert forall|k: int| 0 <= k < some.len() implies {
            &&& (#[trigger] step_text(some[k])).len() > 0
            &&& some[k] is Root ==> k == 0
            &&& !(some[k] is Root) ==> step_text(some[k]).last() != '/'
        } by {
            assert(some[k] == taken[k]);
            let text = step_text(taken[k]);
            assert(text.len() > 0);
            assert(text.contains(text.last()));
        }
        let last = step_text(some.last());
        assert(some.last() == taken[n - 1]);
        assert(!(some.last() is Root));
        assert(last.contains(last[0]));
        text_goes_step_by_step(some);
        assert(some.drop_last() =~= taken.take(n - 1));
    } else if is_absolute(path@) {
        assert(some.len() == 1);
        assert(some.skip(1).map_values(|step: Step| step_text(step)) =~= seq![]);
        assert(path_text(some) =~= seq!['/']);
    } else {
        assert(some =~= seq![]);
        assert(some.map_values(|step: Step| step_text(step)) =~= seq![]);
        assert(path_text(some) =~= seq![]);
    }
}

/// Where making the levels of a directory stops: at the first that is there,
/// or that is the directory one is in.
pub open spec fn is_where_to_stop(levels: Seq<Seq<char>>, is_dir: Seq<bool>, n: int) -> bool {
    &&& 0 <= n <= levels.len()
    &&& n <= is_dir.len()
    &&& forall|i: int| 0 <= i < n ==> #[trigger] levels[i].len() > 0 && !is_dir[i]
    &&& n < levels.len() && n < is_dir.len() ==> levels[n].len() == 0 || is_dir[n]
}

proof fn missing_levels_stop(levels: Seq<Seq<char>>, is_dir: Seq<bool>)
    ensures
        is_where_to_stop(levels, is_dir, missing_levels(levels, is_dir) as int),
    decreases levels.len(),
{
    if levels.len() == 0 || is_dir.len() == 0 || levels[0].len() == 0 || is_dir[0] {
    } else {
        let rest = levels.drop_first();
        let flags = is_dir.drop_first();
        missing_levels_stop(rest, flags);
        let n = missing_levels(levels, is_dir) as int;
        assert forall|i: int| 0 <= i < n implies #[trigger] levels[i].len() > 0 && !is_dir[i] by {
            if i > 0 {
                assert(rest[i - 1] == levels[i]);
                assert(flags[i - 1] == is_dir[i]);
            }
        }
        if n < levels.len() && n < is_dir.len() {
            assert(rest[n - 1] == levels[n]);
            assert(flags[n - 1] == is_dir[n]);
        }
    }
}

/// Every level that is missing is made, the topmost first, and none that is
/// there.
pub proof fn missing_levels_are_made_from_the_top(
    levels: &Vec<String>,
    is_dir: &Vec<bool>,
    made: Vec<String>,
)
    requires
        call_ensures(create_all, (levels, is_dir), made),
    ensures
        is_where_to_stop(levels.deep_view(), is_dir@, made.deep_view().len() as int),
        forall|i: int|
            0 <= i < made.deep_view().len() ==> #[trigger] made.deep_view()[i]
                == levels.deep_view()[made.deep_view().len() - 1 - i],
{
    missing_levels_stop(levels.deep_view(), is_dir@);
}

} // verus!
