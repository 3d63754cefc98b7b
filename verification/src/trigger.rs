//! Trigger declarations: what an item asks to be woken by, collected when
//! it is added and consumed by the executor, and the item interface that
//! makes them.

use vstd::prelude::*;

use crate::error::ExecutorError;

verus! {

/// Collects the trigger declarations of one item, in the order made.
pub struct TriggerDeclarer<D> {
    decls: Vec<D>,
}

impl<D> TriggerDeclarer<D> {
    /// The declarations made so far, in order.
    pub closed spec fn declared(&self) -> Seq<D> {
        self.decls@
    }

    /// A declarer with no declaration.
    pub fn new() -> (r: Self)
        ensures
            r.declared() == Seq::<D>::empty(),
    {
        TriggerDeclarer { decls: Vec::new() }
    }

    /// Record one more declaration.
    pub fn declare(&mut self, decl: D)
        ensures
            final(self).declared() == old(self).declared().push(decl),
    {
        self.decls.push(decl);
    }

    /// Hand the declarations over, in the order made.
    pub fn into_decls(self) -> (r: Vec<D>)
        ensures
            r@ == self.declared(),
    {
        self.decls
    }
}

/// A unit of work the executor schedules, as far as registration sees it:
/// when it is added, it declares what should wake it. What it does when it
/// runs is handed to the runner.
pub trait ExecutableItem<D> {
    /// Record, through `d`, what should wake this item; an error refuses
    /// the registration.
    fn declare_triggers(&mut self, d: &mut TriggerDeclarer<D>) -> Result<(), ExecutorError>;

    /// The application id reported when this item starts and stops, if any.
    fn app_id(&self) -> Option<u32> {
        None
    }

    /// The application instance reported with the application id, if any.
    fn app_instance_id(&self) -> Option<u32> {
        None
    }
}

/// What a `declare_triggers` call produced: the declarations made, or the
/// error it returned.
pub fn declared<D>(outcome: Result<(), ExecutorError>, declarer: TriggerDeclarer<D>) -> (r: Result<
    Vec<D>,
    ExecutorError,
>)
    ensures
        outcome matches Err(e) ==> r == Err::<Vec<D>, ExecutorError>(e),
        outcome is Ok ==> (r matches Ok(v) && v@ == declarer.declared()),
{
    match outcome {
        Err(e) => Err(e),
        Ok(()) => Ok(declarer.into_decls()),
    }
}

/// Ask `item` for its trigger declarations.
pub fn declare_item<D, I: ExecutableItem<D>>(item: &mut I) -> (r: Result<Vec<D>, ExecutorError>) {
    let mut d = TriggerDeclarer::new();
    let outcome = item.declare_triggers(&mut d);
    declared(outcome, d)
}

/// Ask `item`, taken by value, for its trigger declarations; the item
/// comes back as its `declare_triggers` left it.
pub fn declare_owned<D, I: ExecutableItem<D>>(item: I) -> (r: (I, Result<Vec<D>, ExecutorError>)) {
    let mut item = item;
    let outcome = declare_item(&mut item);
    (item, outcome)
}

/// Asking `before` for its trigger declarations can leave it as `after`
/// and produce `outcome`.
pub open spec fn declares<D, I: ExecutableItem<D>>(
    before: I,
    after: I,
    outcome: Result<Vec<D>, ExecutorError>,
) -> bool {
    call_ensures(declare_owned::<D, I>, (before,), (after, outcome))
}

/// Ask `item` for its trigger declarations, so that the answer is known to
/// come from this item.
pub fn ask<D, I: ExecutableItem<D>>(item: I) -> (r: (I, Result<Vec<D>, ExecutorError>))
    ensures
        declares(item, r.0, r.1),
{
    let f = declare_owned::<D, I>;
    f(item)
}

/// Asking the item at position `k` of `items` for its trigger declarations
/// can leave it as the item at position `k` of `stored`.
pub open spec fn asked_at<D, I: ExecutableItem<D>>(items: Seq<I>, stored: Seq<I>, k: int) -> bool {
    exists|o: Result<Vec<D>, ExecutorError>| declares(items[k], stored[k], o)
}

} // verus!
