use scip_jack::deadline::{expired, install, passed, restore, DeadlineCell};
use std::time::{Duration, Instant};

#[test]
fn no_deadline_never_expires() {
    let cell = DeadlineCell::new();
    assert!(!expired(&cell));
}

#[test]
fn an_installed_deadline_expires_and_is_restored() {
    let mut cell = DeadlineCell::new();
    assert!(!expired(&cell));
    {
        let g = install(&mut cell, Some(Instant::now() - Duration::from_secs(1)));
        assert!(expired(&cell));
        {
            // Nested installs stack rather than clobber.
            let inner = install(&mut cell, Some(Instant::now() + Duration::from_secs(3600)));
            assert!(!expired(&cell));
            restore(&mut cell, inner);
        }
        assert!(expired(&cell));
        restore(&mut cell, g);
    }
    assert!(!expired(&cell), "the guard did not restore the previous deadline");
}

#[test]
fn an_absent_deadline_has_not_passed() {
    assert!(!passed(&None));
    assert!(passed(&Some(Instant::now() - Duration::from_secs(1))));
    assert!(!passed(&Some(Instant::now() + Duration::from_secs(3600))));
}
