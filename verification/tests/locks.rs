use rolnix_kernel::spinlock::SpinLock;

#[test]
fn lock_round_trip() {
    let l = SpinLock::new(0u32);
    {
        let mut g = l.lock();
        *g.get_mut() += 1;
        g.unlock();
    }
    assert_eq!(*l.lock().get(), 1);
}

#[test]
fn irqsave_gives_the_saved_flags_back() {
    let l = SpinLock::new(5u32);
    let g = l.lock_irqsave(0x202);
    assert_eq!(*g.get(), 5);
    assert_eq!(g.unlock(), Some(0x202));
    assert_eq!(l.lock().unlock(), None);
}
