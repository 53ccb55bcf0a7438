use genmem::mem::MaybeNull;
use genmem::mem::Nullable;
use genmem::mem::ResourceRef;

#[test]
fn null_wrapper_round_trips() {
    let mut n: Nullable<ResourceRef> = Nullable::null();
    assert!(n.is_null());
    assert!(n.get_ref().is_none());
    assert!(n.get_mut().is_none());

    let real = Nullable::new(ResourceRef::null());
    assert!(real.is_null());

    let mut token = ResourceRef::null();
    let taken = token.take();
    assert!(taken.is_null());
    let old = token.replace(ResourceRef::null());
    assert!(old.is_null());

    let swapped = n.replace(ResourceRef::null());
    assert!(swapped.get().is_none());
    let back = n.take();
    assert!(back.is_null());

    let mapped: Nullable<ResourceRef> = back.map(|r| r);
    assert!(mapped.is_null());
}
