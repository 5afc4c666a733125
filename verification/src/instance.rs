//! One copy of a package: the version that was selected, and the copy of
//! each peer that its subtree can see from where it sits.

use vstd::prelude::*;
use crate::order::{Duplicate, Key, Order};
use crate::package_id::{IdModel, PackageId};
use crate::text::{order_of, text_before};

verus! {

/// What an [`Instance`] means.
pub struct InstanceModel {
    pub package: IdModel,
    pub environment: Seq<(Seq<char>, InstanceModel)>,
}

/// One copy of a package.
///
/// The environment is what tells two copies apart. It names every peer that
/// the subtree can ask about and that is answered from above, and it names
/// each provider as a copy, because two providers of one version may
/// themselves have been answered differently.
#[derive(Debug)]
pub struct Instance {
    pub package: PackageId,
    pub environment: Environment,
}

/// The peers that a copy can see, by name.
#[derive(Debug)]
pub struct Environment {
    entries: Vec<(String, Instance)>,
}

impl DeepView for Instance {
    type V = InstanceModel;

    open spec fn deep_view(&self) -> InstanceModel
        decreases self,
    {
        InstanceModel { package: self.package.deep_view(), environment: self.environment.model() }
    }
}

impl Environment {
    pub closed spec fn model(&self) -> Seq<(Seq<char>, InstanceModel)>
        decreases self,
    {
        Seq::new(
            self.entries@.len(),
            |i: int|
                if 0 <= i < self.entries@.len() {
                    (self.entries@[i].0@, self.entries@[i].1.deep_view())
                } else {
                    arbitrary()
                },
        )
    }

    /// An environment that names nothing.
    pub fn empty() -> (environment: Self)
        ensures
            environment.model() == Seq::<(Seq<char>, InstanceModel)>::empty(),
    {
        let environment = Environment { entries: Vec::new() };
        assert(environment.model() =~= Seq::<(Seq<char>, InstanceModel)>::empty());
        environment
    }

    /// Name one more peer.
    pub fn push(&mut self, name: String, instance: Instance)
        ensures
            final(self).model() == old(self).model().push((name@, instance.deep_view())),
    {
        self.entries.push((name, instance));
        assert(self.model() =~= old(self).model().push((name@, instance.deep_view())));
    }
}

/// Copies are ordered by package, then by environment.
pub open spec fn instance_before(a: InstanceModel, b: InstanceModel) -> bool
    decreases a,
{
    if a.package != b.package {
        PackageId::before(a.package, b.package)
    } else {
        environment_before(a.environment, b.environment)
    }
}

/// Environments are ordered entry by entry, by name and then by copy, with a
/// proper prefix coming before what extends it.
pub open spec fn environment_before(
    a: Seq<(Seq<char>, InstanceModel)>,
    b: Seq<(Seq<char>, InstanceModel)>,
) -> bool
    decreases a,
{
    if b.len() == 0 {
        false
    } else if a.len() == 0 {
        true
    } else if a[0].0 != b[0].0 {
        text_before(a[0].0, b[0].0)
    } else if a[0].1 != b[0].1 {
        instance_before(a[0].1, b[0].1)
    } else {
        environment_before(a.drop_first(), b.drop_first())
    }
}

proof fn instance_irreflexive(a: InstanceModel)
    ensures
        !instance_before(a, a),
{
    environment_irreflexive(a.environment);
}

proof fn environment_irreflexive(a: Seq<(Seq<char>, InstanceModel)>)
    ensures
        !environment_before(a, a),
    decreases a.len(),
{
    if a.len() > 0 {
        environment_irreflexive(a.drop_first());
    }
}

proof fn instance_transitive(a: InstanceModel, b: InstanceModel, c: InstanceModel)
    requires
        instance_before(a, b),
        instance_before(b, c),
    ensures
        instance_before(a, c),
    decreases a,
{
    if a.package != b.package || b.package != c.package {
        if a.package != b.package && b.package != c.package {
            PackageId::before_transitive(a.package, b.package, c.package);
            PackageId::before_irreflexive(a.package);
        }
    } else {
        environment_transitive(a.environment, b.environment, c.environment);
    }
}

proof fn environment_transitive(
    a: Seq<(Seq<char>, InstanceModel)>,
    b: Seq<(Seq<char>, InstanceModel)>,
    c: Seq<(Seq<char>, InstanceModel)>,
)
    requires
        environment_before(a, b),
        environment_before(b, c),
    ensures
        environment_before(a, c),
    decreases a,
{
    if a.len() > 0 && b.len() > 0 && c.len() > 0 {
        if a[0].0 != b[0].0 || b[0].0 != c[0].0 {
            if a[0].0 != b[0].0 && b[0].0 != c[0].0 {
                String::before_transitive(a[0].0, b[0].0, c[0].0);
                String::before_irreflexive(a[0].0);
            }
        } else if a[0].1 != b[0].1 || b[0].1 != c[0].1 {
            if a[0].1 != b[0].1 && b[0].1 != c[0].1 {
                instance_transitive(a[0].1, b[0].1, c[0].1);
                instance_irreflexive(a[0].1);
            }
        } else {
            environment_transitive(a.drop_first(), b.drop_first(), c.drop_first());
        }
    }
}

proof fn instance_total(a: InstanceModel, b: InstanceModel)
    ensures
        a == b || instance_before(a, b) || instance_before(b, a),
    decreases a,
{
    PackageId::before_total(a.package, b.package);
    environment_total(a.environment, b.environment);
}

proof fn environment_total(
    a: Seq<(Seq<char>, InstanceModel)>,
    b: Seq<(Seq<char>, InstanceModel)>,
)
    ensures
        a == b || environment_before(a, b) || environment_before(b, a),
    decreases a,
{
    if a.len() > 0 && b.len() > 0 {
        String::before_total(a[0].0, b[0].0);
        instance_total(a[0].1, b[0].1);
        environment_total(a.drop_first(), b.drop_first());
        if a[0].0 == b[0].0 && a[0].1 == b[0].1 && a.drop_first() == b.drop_first() {
            assert(a =~= seq![a[0]] + a.drop_first());
            assert(b =~= seq![b[0]] + b.drop_first());
        }
    } else if a.len() == 0 && b.len() == 0 {
        assert(a =~= b);
    }
}

fn order_instances(a: &Instance, b: &Instance) -> (order: Order)
    ensures
        order is Before <==> instance_before(a.deep_view(), b.deep_view()),
        order is Same <==> a.deep_view() == b.deep_view(),
        order is After <==> instance_before(b.deep_view(), a.deep_view()),
    decreases a,
{
    match a.package.order(&b.package) {
        Order::Same => {},
        other => {
            return other;
        },
    }
    assert(a.environment.model().skip(0) =~= a.environment.model());
    assert(b.environment.model().skip(0) =~= b.environment.model());
    order_environments(&a.environment, &b.environment, 0)
}

fn order_environments(a: &Environment, b: &Environment, from: usize) -> (order: Order)
    requires
        from <= a.model().len(),
        from <= b.model().len(),
    ensures
        order is Before <==> environment_before(
            a.model().skip(from as int),
            b.model().skip(from as int),
        ),
        order is Same <==> a.model().skip(from as int) == b.model().skip(from as int),
        order is After <==> environment_before(
            b.model().skip(from as int),
            a.model().skip(from as int),
        ),
    decreases a, a.model().len() - from,
{
    let ghost sa = a.model().skip(from as int);
    let ghost sb = b.model().skip(from as int);
    if from >= b.entries.len() {
        assert(sb.len() == 0);
        if from >= a.entries.len() {
            assert(sa =~= sb);
            return Order::Same;
        }
        return Order::After;
    }
    if from >= a.entries.len() {
        return Order::Before;
    }
    assert(sa[0] == a.model()[from as int]);
    assert(sb[0] == b.model()[from as int]);
    match order_of(a.entries[from].0.as_str(), b.entries[from].0.as_str()) {
        Order::Same => {},
        other => {
            return other;
        },
    }
    proof {
        assert(decreases_to!(a => a.entries));
        assert(decreases_to!(a.entries => a.entries@[from as int]));
    }
    match order_instances(&a.entries[from].1, &b.entries[from].1) {
        Order::Same => {},
        other => {
            return other;
        },
    }
    assert(sa.drop_first() =~= a.model().skip(from + 1));
    assert(sb.drop_first() =~= b.model().skip(from + 1));
    let order = order_environments(a, b, from + 1);
    proof {
        if sa.drop_first() == sb.drop_first() {
            assert(sa =~= seq![sa[0]] + sa.drop_first());
            assert(sb =~= seq![sb[0]] + sb.drop_first());
        }
    }
    order
}

fn duplicate_instance(instance: &Instance) -> (copy: Instance)
    ensures
        copy.deep_view() == instance.deep_view(),
    decreases instance,
{
    Instance {
        package: instance.package.duplicate(),
        environment: duplicate_environment(&instance.environment),
    }
}

fn duplicate_environment(environment: &Environment) -> (copy: Environment)
    ensures
        copy.model() == environment.model(),
    decreases environment,
{
    let mut entries: Vec<(String, Instance)> = Vec::new();
    let mut i: usize = 0;
    while i < environment.entries.len()
        invariant
            i <= environment.entries@.len(),
            entries@.len() == i,
            forall|j: int|
                0 <= j < i ==> (#[trigger] entries@[j]).0@ == environment.entries@[j].0@
                    && entries@[j].1.deep_view() == environment.entries@[j].1.deep_view(),
        decreases environment.entries.len() - i,
    {
        let entry = &environment.entries[i];
        proof {
            assert(decreases_to!(environment => environment.entries));
            assert(decreases_to!(environment.entries => environment.entries@[i as int]));
        }
        entries.push((entry.0.clone(), duplicate_instance(&entry.1)));
        i = i + 1;
    }
    let copy = Environment { entries };
    assert(copy.model() =~= environment.model());
    copy
}

impl Duplicate for Instance {
    fn duplicate(&self) -> (copy: Self) {
        duplicate_instance(self)
    }
}

impl Key for Instance {
    open spec fn before(a: InstanceModel, b: InstanceModel) -> bool {
        instance_before(a, b)
    }

    proof fn before_irreflexive(a: InstanceModel) {
        instance_irreflexive(a);
    }

    proof fn before_transitive(a: InstanceModel, b: InstanceModel, c: InstanceModel) {
        instance_transitive(a, b, c);
    }

    proof fn before_total(a: InstanceModel, b: InstanceModel) {
        instance_total(a, b);
    }

    fn order(&self, other: &Self) -> (order: Order) {
        order_instances(self, other)
    }
}

} // verus!
