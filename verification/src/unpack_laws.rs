//! What unpacking a tarball comes to, and what a package's entry points and
//! its key are.

use vstd::prelude::*;
use vstd::utf8::encode_utf8;
use crate::archive::{
    behind_current, entries_unpacked, entry_unpacked, placed, widened, ArchiveFault, RawModel,
    UnpackedModel,
};
use crate::binaries::{accepted_of, bins_of, contained_path, DeclaredBins};
use crate::integrity::{
    base64_bytes, hex_digit, hex_text, ssri_reading, Algo, IntegrityFault, IntegrityModel,
};
use crate::package_id::{flattened, plain_id, rendered, rendered_context, IdModel};
use crate::path::{
    is_plain, plain_names_of_plainly, plainly, spelled, steps, steps_of_spelled, Step,
};
use crate::report::{counted, decimal};
use crate::sorted::{in_order, in_order_lists};
use crate::text::{cut_first_at, cut_last_at, is_first, is_last};

verus! {

/// Each entry of a tarball is unpacked on its own, in order, up to the first
/// that is refused: what comes behind that leaves nothing, and what came
/// before it stays.
pub proof fn entries_are_unpacked_in_order(
    a: Seq<Result<RawModel, Seq<char>>>,
    b: Seq<Result<RawModel, Seq<char>>>,
    dest: Seq<char>,
)
    ensures
        ({
            let first = entries_unpacked(a, dest);
            let second = entries_unpacked(b, dest);
            let both = entries_unpacked(a + b, dest);
            if first.fault is Some {
                both == first
            } else {
                both.unpacked == first.unpacked + second.unpacked && both.fault == second.fault
            }
        }),
    decreases b.len(),
{
    if b.len() == 0 {
        assert(a + b =~= a);
        assert(entries_unpacked(a, dest).unpacked + seq![] =~= entries_unpacked(a, dest).unpacked);
    } else {
        entries_are_unpacked_in_order(a, b.drop_last(), dest);
        assert((a + b).drop_last() =~= a + b.drop_last());
        let first = entries_unpacked(a, dest);
        let second = entries_unpacked(b, dest);
        assert(entries_unpacked(a + b, dest).unpacked =~= if first.fault is Some {
            first.unpacked
        } else {
            first.unpacked + second.unpacked
        });
    }
}

/// A single entry leaves what it is unpacked to, or the fault that it has.
pub proof fn one_entry_is_unpacked(entry: RawModel, source: Seq<char>, dest: Seq<char>)
    ensures
        ({
            let outcome = entries_unpacked(seq![Ok::<RawModel, Seq<char>>(entry)], dest);
            match entry_unpacked(entry, dest) {
                Ok(None) => outcome.unpacked.len() == 0 && outcome.fault is None,
                Ok(Some(made)) => outcome.unpacked == seq![made] && outcome.fault is None,
                Err(fault) => outcome.unpacked.len() == 0 && outcome.fault == Some(fault),
            }
        }),
        entries_unpacked(seq![Err::<RawModel, Seq<char>>(source)], dest).fault == Some(
            ArchiveFault::Read(source),
        ),
{
    reveal_with_fuel(entries_unpacked, 2);
    let one = seq![Ok::<RawModel, Seq<char>>(entry)];
    assert(one.drop_last() =~= seq![]);
    assert(entries_unpacked(one.drop_last(), dest).unpacked =~= seq![]);
    assert(seq![Err::<RawModel, Seq<char>>(source)].drop_last() =~= seq![]);
    match entry_unpacked(entry, dest) {
        Ok(Some(made)) => {
            assert(entries_unpacked(one, dest).unpacked =~= seq![made]);
        },
        _ => {},
    }
}

/// A file at plain names lands where the names after the first lead, with all
/// of its contents. It can be run exactly where its owner could run it.
pub proof fn files_land_behind_their_first_name(
    entry: RawModel,
    top: Seq<char>,
    names: Seq<Seq<char>>,
    dest: Seq<char>,
)
    requires
        is_plain(top),
        names.len() > 0,
        forall|i: int| 0 <= i < names.len() ==> is_plain(#[trigger] names[i]),
        widened(entry.path) == spelled(seq![top] + names),
        entry.flag == 0x30,
        entry.ustar,
        entry.contents is Ok,
        (entry.contents->Ok_0).len() == entry.size,
    ensures
        entry_unpacked(entry, dest) == Ok::<Option<UnpackedModel>, ArchiveFault>(
            Some(
                UnpackedModel::File {
                    path: placed(dest, spelled(names)),
                    mode: if entry.mode is Some && (entry.mode->0 & 0o100) != 0 {
                        0o755
                    } else {
                        0o644
                    },
                    time: match entry.mtime {
                        Some(t) => Some(if t == 0 {
                            1
                        } else {
                            t as i64
                        }),
                        None => None,
                    },
                    contents: entry.contents->Ok_0,
                },
            ),
        ),
{
    let all = seq![top] + names;
    assert forall|i: int| 0 <= i < all.len() implies is_plain(#[trigger] all[i]) by {
        if i > 0 {
            assert(all[i] == names[i - 1]);
        }
    }
    steps_of_spelled(all);
    steps_of_spelled(names);
    let taken = steps(spelled(all));
    assert(taken == plainly(all));
    assert(taken[0] == Step::Normal(top));
    assert(taken.skip(1) =~= plainly(names));
    plain_names_of_plainly(names);
}

/// A directory at plain names is made where the names after the first lead,
/// whether it says that it is one or, in an old tarball, only ends like one. A
/// file whose contents are cut short, or cannot be read, is refused.
pub proof fn directories_land_behind_their_first_name(
    entry: RawModel,
    top: Seq<char>,
    names: Seq<Seq<char>>,
    dest: Seq<char>,
)
    requires
        is_plain(top),
        names.len() > 0,
        forall|i: int| 0 <= i < names.len() ==> is_plain(#[trigger] names[i]),
        steps(widened(entry.path)) == plainly(seq![top] + names),
        entry.flag != 0x31 && entry.flag != 0x32,
        entry.flag != 0x67 && entry.flag != 0x78 && entry.flag != 0x4c && entry.flag != 0x4b,
    ensures
        entry.flag == 0x35 || (!entry.ustar && entry.path.len() > 0 && entry.path.last() == 0x2f)
            ==> entry_unpacked(entry, dest) == Ok::<Option<UnpackedModel>, ArchiveFault>(
            Some(UnpackedModel::Directory { path: placed(dest, spelled(names)), mode: 0o755 }),
        ),
        !(entry.flag == 0x35 || (!entry.ustar && entry.path.len() > 0 && entry.path.last() == 0x2f))
            ==> (entry_unpacked(entry, dest) is Ok <==> entry.contents is Ok && (
        entry.contents->Ok_0).len() == entry.size),
{
    steps_of_spelled(names);
    let taken = steps(widened(entry.path));
    assert(taken[0] == Step::Normal(top));
    assert(taken.skip(1) =~= plainly(names));
    plain_names_of_plainly(names);
}

/// What a tarball says of itself or of the next entry leaves nothing, and
/// neither does the directory that everything else in it is in.
pub proof fn headers_leave_nothing(
    entry: RawModel,
    top: Seq<char>,
    names: Seq<Seq<char>>,
    dest: Seq<char>,
)
    requires
        is_plain(top),
        forall|i: int| 0 <= i < names.len() ==> is_plain(#[trigger] names[i]),
        steps(widened(entry.path)) == plainly(seq![top] + names),
        entry.flag != 0x31 && entry.flag != 0x32,
        names.len() == 0 || entry.flag == 0x67 || entry.flag == 0x78 || entry.flag == 0x4c
            || entry.flag == 0x4b,
    ensures
        entry_unpacked(entry, dest) == Ok::<Option<UnpackedModel>, ArchiveFault>(None),
{
    let taken = steps(widened(entry.path));
    assert(taken[0] == Step::Normal(top));
    assert(taken.skip(1) =~= plainly(names));
    plain_names_of_plainly(names);
    if names.len() == 0 {
        assert(spelled(names) =~= seq![]);
    }
}

/// A link of either kind is refused, wherever it would stand, and so is an
/// entry on whose way there is a step up or a start at the filesystem root.
pub proof fn nothing_leads_outside(entry: RawModel, dest: Seq<char>, i: int)
    ensures
        entry.flag == 0x31 || entry.flag == 0x32 ==> entry_unpacked(entry, dest) is Err,
        0 <= i < steps(widened(entry.path)).len() && (steps(widened(entry.path))[i] is Parent
            || steps(widened(entry.path))[i] is Root) ==> entry_unpacked(entry, dest) is Err,
{
    let taken = steps(widened(entry.path));
    if 0 <= i < taken.len() && (taken[i] is Parent || taken[i] is Root) {
        let k = climbing_is_kept(taken, i);
        let rest = behind_current(taken);
        if k > 0 {
            assert(rest.skip(1)[k - 1] == rest[k]);
        }
    }
}

proof fn climbing_is_kept(taken: Seq<Step>, i: int) -> (k: int)
    requires
        0 <= i < taken.len(),
        taken[i] is Parent || taken[i] is Root,
    ensures
        0 <= k < behind_current(taken).len(),
        behind_current(taken)[k] is Parent || behind_current(taken)[k] is Root,
    decreases taken.len(),
{
    if taken[0] is Current {
        assert(taken.drop_first()[i - 1] == taken[i]);
        climbing_is_kept(taken.drop_first(), i - 1)
    } else {
        i
    }
}

/// What is accepted of some entry points is exactly what can be, each at the
/// place its target leads to.
proof fn accepted_are(names: Seq<Seq<char>>, declared: Map<Seq<char>, Seq<char>>, name: Seq<char>)
    ensures
        accepted_of(names, declared).contains_key(name) <==> names.contains(name) && is_plain(name)
            && contained_path(declared[name]) is Some,
        accepted_of(names, declared).contains_key(name) ==> accepted_of(names, declared)[name]
            == contained_path(declared[name])->0,
    decreases names.len(),
{
    if names.len() > 0 {
        let shorter = names.drop_last();
        accepted_are(shorter, declared, name);
        let n = names.len() - 1;
        if shorter.contains(name) {
            let k = shorter.index_of(name);
            assert(names[k] == name);
        }
        if names.contains(name) && !shorter.contains(name) {
            let k = names.index_of(name);
            if k < n {
                assert(shorter[k] == name);
            }
        }
        assert(names[n] == names.last());
    }
}

/// Every usable entry point is kept, under its name and at the place its target
/// leads to, and no unusable one is: its name has to be one plain component,
/// and its target has to go down to something.
pub proof fn usable_bins_are_kept(
    declared: Map<Seq<char>, Seq<char>>,
    package: Seq<char>,
    name: Seq<char>,
)
    requires
        declared.dom().finite(),
    ensures
        ({
            let bins = bins_of(DeclaredBins::Many(declared), package);
            &&& bins.contains_key(name) <==> declared.contains_key(name) && is_plain(name)
                && contained_path(declared[name]) is Some
            &&& bins.contains_key(name) ==> bins[name] == contained_path(declared[name])->0
        }),
{
    let names = in_order::<String>(declared.dom());
    in_order_lists::<String>(declared.dom());
    assert(names.to_set().contains(name) <==> declared.dom().contains(name));
    accepted_are(names, declared, name);
}

/// A lone entry point goes by the package's name without its scope.
pub proof fn lone_bins_go_by_the_package(
    scope: Seq<char>,
    name: Seq<char>,
    target: Seq<Seq<char>>,
)
    requires
        is_plain(name),
        target.len() > 0,
        forall|i: int| 0 <= i < target.len() ==> is_plain(#[trigger] target[i]),
    ensures
        bins_of(DeclaredBins::One(spelled(target)), name) == Map::<
            Seq<char>,
            Seq<char>,
        >::empty().insert(name, spelled(target)),
        bins_of(DeclaredBins::One(spelled(target)), scope + seq!['/'] + name) == Map::<
            Seq<char>,
            Seq<char>,
        >::empty().insert(name, spelled(target)),
{
    steps_of_spelled(target);
    plain_names_of_plainly(target);
    assert(contained_path(spelled(target)) == Some(spelled(target)));
    let full = scope + seq!['/'] + name;
    let n = scope.len() as int;
    assert(full[n] == '/');
    assert forall|j: int| n < j < full.len() implies full[j] != '/' by {
        assert(full[j] == name[j - n - 1]);
        assert(name.contains(name[j - n - 1]));
    }
    assert(is_last(full, '/', n));
    cut_last_at(full, '/', n);
    assert(full.skip(n + 1) =~= name);
}

/// A target that climbs, or starts at the filesystem root, or leads nowhere is
/// no entry point's.
pub proof fn climbing_targets_are_dropped(target: Seq<char>, i: int)
    requires
        0 <= i < steps(target).len(),
        steps(target)[i] is Parent || steps(target)[i] is Root,
    ensures
        contained_path(target) is None,
{
}

/// A hash is read by the algorithm that it names, and what it names has to be
/// one of the two there are. A digest has to be as long as the algorithm makes
/// it.
pub proof fn hashes_are_read_by_name(name: Seq<char>, encoded: Seq<char>)
    requires
        !name.contains('-'),
    ensures
        ({
            let text = name + seq!['-'] + encoded;
            let read = ssri_reading(text);
            if name == "sha512"@ || name == "sha1"@ {
                let algo = if name == "sha512"@ {
                    Algo::Sha512
                } else {
                    Algo::Sha1
                };
                let length = if name == "sha512"@ {
                    64int
                } else {
                    20
                };
                if base64_bytes(encoded) is Some && (base64_bytes(encoded)->0).len() == length {
                    read == Ok::<IntegrityModel, IntegrityFault>(
                        IntegrityModel { algo, digest: base64_bytes(encoded)->0 },
                    )
                } else {
                    read == Err::<IntegrityModel, IntegrityFault>(IntegrityFault::Unparseable(text))
                }
            } else {
                read == Err::<IntegrityModel, IntegrityFault>(
                    IntegrityFault::UnsupportedAlgorithm(name),
                )
            }
        }),
{
    reveal_strlit("sha512");
    reveal_strlit("sha1");
    let text = name + seq!['-'] + encoded;
    let n = name.len() as int;
    assert(text[n] == '-');
    assert forall|j: int| 0 <= j < n implies text[j] != '-' by {
        assert(text[j] == name[j]);
        assert(name.contains(name[j]));
    }
    assert(is_first(text, '-', n));
    cut_first_at(text, '-', n);
    assert(text.take(n) =~= name);
    assert(text.skip(n + 1) =~= encoded);
    assert("sha512"@.len() != "sha1"@.len());
}

/// Bytes are written two digits each, one behind the other, the digits being
/// those of sixteen.
pub proof fn bytes_are_written_in_turn(a: Seq<u8>, b: Seq<u8>, byte: u8)
    ensures
        hex_text(a + b) == hex_text(a) + hex_text(b),
        hex_text(seq![byte]) == seq![
            "0123456789abcdef"@[byte as int / 16],
            "0123456789abcdef"@[byte as int % 16],
        ],
    decreases b.len(),
{
    reveal_strlit("0123456789abcdef");
    reveal_with_fuel(hex_text, 2);
    if b.len() == 0 {
        assert(a + b =~= a);
        assert(hex_text(a) + hex_text(b) =~= hex_text(a));
    } else {
        bytes_are_written_in_turn(a, b.drop_last(), byte);
        assert((a + b).drop_last() =~= a + b.drop_last());
        assert(hex_text(a + b) =~= hex_text(a) + hex_text(b));
    }
    assert(seq![byte].drop_last() =~= seq![]);
    assert(hex_text(seq![byte]) =~= seq![
        hex_digit(byte as int / 16),
        hex_digit(byte as int % 16),
    ]);
}

/// A package without peers is written as its name and its version. One with a
/// peer that has none itself adds it in brackets, the separator of its name
/// replaced, if the whole fits in two hundred bytes.
pub proof fn peers_are_written_in_brackets(
    name: Seq<char>,
    version: Seq<char>,
    under: Seq<char>,
    peer: Seq<char>,
    at: Seq<char>,
)
    ensures
        ({
            let whole = name + "@"@ + version + ("("@ + flattened(peer) + "@"@ + at + ")"@);
            let id = IdModel { name, version, context: seq![(under, plain_id(peer, at))] };
            &&& rendered(plain_id(name, version)) == name + "@"@ + version
            &&& encode_utf8(whole).len() <= 200 ==> rendered(id) == whole
        }),
{
    let context = seq![(under, plain_id(peer, at))];
    assert(context.drop_last() =~= seq![]);
    assert(rendered_context(context.drop_last()) =~= seq![]);
    assert(rendered_context(plain_id(peer, at).context) =~= seq![]);
    assert(rendered_context(context) =~= "("@ + flattened(peer) + "@"@ + at + ")"@);
}

/// A context is written one peer behind the other.
pub proof fn contexts_are_written_in_turn(
    a: Seq<(Seq<char>, IdModel)>,
    b: Seq<(Seq<char>, IdModel)>,
)
    ensures
        rendered_context(a + b) == rendered_context(a) + rendered_context(b),
    decreases b.len(),
{
    if b.len() == 0 {
        assert(a + b =~= a);
        assert(rendered_context(a) + rendered_context(b) =~= rendered_context(a));
    } else {
        contexts_are_written_in_turn(a, b.drop_last());
        assert((a + b).drop_last() =~= a + b.drop_last());
        assert((a + b)[(a + b).len() - 1] == b[b.len() - 1]);
        assert(rendered_context(a + b) =~= rendered_context(a) + rendered_context(b));
    }
}

/// Numbers are written digit by digit, without a zero in front, and a noun is
/// counted in the plural unless there is one of it.
pub proof fn numbers_are_written_digit_by_digit(n: nat, digit: nat, noun: Seq<char>)
    requires
        digit < 10,
    ensures
        decimal(digit) == seq!["0123456789"@[digit as int]],
        n > 0 ==> decimal(n * 10 + digit) == decimal(n) + decimal(digit),
        counted(1, noun) == "1 "@ + noun,
        n != 1 ==> counted(n, noun) == decimal(n) + " "@ + noun + "s"@,
{
    reveal_strlit("0123456789");
    let both = n * 10 + digit;
    assert(both % 10 == digit && both / 10 == n);
    assert(decimal(digit) =~= seq!["0123456789"@[digit as int]]);
    if n > 0 {
        assert(decimal(both) =~= decimal(n) + decimal(digit));
    }
}

} // verus!
