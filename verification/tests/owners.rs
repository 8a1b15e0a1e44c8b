use rolnix_kernel::frame::{FrameOwner, OwnerTag};

#[test]
fn owner_encoding_round_trip() {
    for owner in [
        FrameOwner::reserved(),
        FrameOwner::free(),
        FrameOwner::kernel(),
        FrameOwner::pending(),
        FrameOwner::untyped(0x1234),
        FrameOwner::domain(0xdead_beef),
    ] {
        let tag = owner.tag();
        let id = owner.id();
        let back = match tag {
            OwnerTag::Untyped => FrameOwner::untyped(id),
            OwnerTag::Domain => FrameOwner::domain(id),
            _ => match tag {
                OwnerTag::Reserved => FrameOwner::reserved(),
                OwnerTag::Free => FrameOwner::free(),
                OwnerTag::Kernel => FrameOwner::kernel(),
                OwnerTag::Pending => FrameOwner::pending(),
                _ => unreachable!(),
            },
        };
        assert_eq!(owner, back);
    }
    assert_eq!(FrameOwner::reserved().raw(), 0);
    assert_eq!(FrameOwner::untyped(7).tag(), OwnerTag::Untyped);
    assert_eq!(FrameOwner::domain(9).id(), 9);
}

#[test]
fn owner_ids_keep_all_their_bits() {
    assert_eq!(FrameOwner::domain(0xffff_ffff).id(), 0xffff_ffff);
    assert_eq!(FrameOwner::domain(0xffff_ffff).tag(), OwnerTag::Domain);
    assert_ne!(FrameOwner::untyped(5), FrameOwner::domain(5));
    assert_ne!(FrameOwner::untyped(5), FrameOwner::untyped(6));
}
