//! A scope in which several values of the cache can be held at once.
use vstd::prelude::*;
use crate::indexed::{CacheView, IndexedLruCache};

verus! {

/// The cache as the scope helpers name it.
pub type LruCache<V> = IndexedLruCache<V>;

/// Lookups inside a scope: they leave the cache as it is, so the values
/// they hand out can be held together.
pub struct GetScope<'cache, V> {
    cache: &'cache IndexedLruCache<V>,
}

/// The scope's permission to look up values.
pub struct GetToken {
    _private: (),
}

impl<'cache, V> GetScope<'cache, V> {
    /// The cache the scope looks into.
    pub closed spec fn view(&self) -> CacheView<V> {
        self.cache@
    }

    pub closed spec fn wf(&self) -> bool {
        self.cache.wf()
    }

    /// The value of a real entry of the cache.
    pub fn get(&self, _token: &GetToken, k: u64) -> (r: Option<&'cache V>)
        requires
            self.wf(),
        ensures
            self.view().is_real(k) ==> r.is_some() && Some(*r.unwrap()) == self.view().entries[self.view().pos(
                k,
            )].val,
            !self.view().is_real(k) ==> r.is_none(),
    {
        self.cache.peek(k)
    }
}

impl<V> LruCache<V> {
    /// Runs `func` with a scope over this cache and its token, and hands
    /// back what `func` returns; the cache does not change.
    pub fn scope_for_multi_get<'cache, F, R>(&'cache mut self, func: F) -> (r: R) where
        F: FnOnce(GetScope<'cache, V>, GetToken) -> R,

        requires
            old(self).wf(),
            forall|s: GetScope<'cache, V>, t: GetToken|
                s.wf() && s.view() == old(self)@ ==> #[trigger] func.requires((s, t)),
        ensures
            final(self).wf(),
            final(self)@ == old(self)@,
            exists|s: GetScope<'cache, V>, t: GetToken|
                s.wf() && s.view() == old(self)@ && #[trigger] func.ensures((s, t), r),
    {
        let scope = GetScope { cache: &*self };
        let token = GetToken { _private: () };
        func(scope, token)
    }
}

} // verus!
