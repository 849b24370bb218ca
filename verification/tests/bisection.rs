use color_profile::bisection::{split, BisectionSampler};
use color_profile::color::Color;
use color_profile::queue::{PendingRange, WorkQueue};

fn truth(h: usize) -> Color {
    if h < 50 {
        Color::Red
    } else if h < 130 {
        Color::Yellow
    } else if h < 250 {
        Color::Cyan
    } else {
        Color::Magenta
    }
}

#[test]
fn bisection_first_question_is_hue_zero() {
    let s = BisectionSampler::new();
    assert_eq!(s.get_current_target(), Some(0));
    assert_eq!(s.pending_ranges(), vec![PendingRange { low: 0, high: 360 }]);
    assert!(!s.is_complete());
    assert!(s.get_profile().iter().all(|slot| slot.1.is_none()));
}

#[test]
fn bisection_first_judgment_splits_the_wheel() {
    let mut s = BisectionSampler::new();
    let next = s.submit_judgment(Color::Red);
    assert_eq!(next, Some(180));
    assert_eq!(s.get_current_target(), Some(180));
    assert_eq!(
        s.pending_ranges(),
        vec![
            PendingRange { low: 0, high: 180 },
            PendingRange { low: 180, high: 360 },
        ]
    );
    let p = s.get_profile();
    assert_eq!(p[0], (0, Some(Color::Red)));
    assert_eq!(p.iter().filter(|slot| slot.1.is_some()).count(), 1);
}

#[test]
fn bisection_goes_breadth_first() {
    let mut s = BisectionSampler::new();
    assert_eq!(s.submit_judgment(Color::Red), Some(180));
    assert_eq!(s.submit_judgment(Color::Cyan), Some(90));
    assert_eq!(
        s.pending_ranges(),
        vec![
            PendingRange { low: 180, high: 360 },
            PendingRange { low: 0, high: 90 },
            PendingRange { low: 90, high: 180 },
        ]
    );
    assert_eq!(s.submit_judgment(Color::Yellow), Some(270));
    assert_eq!(s.submit_judgment(Color::Magenta), Some(45));
    let p = s.get_profile();
    assert_eq!(p[0].1, Some(Color::Red));
    assert_eq!(p[180].1, Some(Color::Cyan));
    assert_eq!(p[90].1, Some(Color::Yellow));
    assert_eq!(p[270].1, Some(Color::Magenta));
    assert_eq!(p[45].1, None);
}

#[test]
fn split_drops_halves_of_width_one() {
    let mut q = WorkQueue::new();
    assert_eq!(split(&mut q, PendingRange { low: 10, high: 12 }), 11);
    assert!(q.is_empty());
    assert_eq!(split(&mut q, PendingRange { low: 10, high: 13 }), 11);
    assert_eq!(q.to_vec(), vec![PendingRange { low: 11, high: 13 }]);
    assert_eq!(split(&mut q, PendingRange { low: 20, high: 24 }), 22);
    assert_eq!(
        q.to_vec(),
        vec![
            PendingRange { low: 11, high: 13 },
            PendingRange { low: 20, high: 22 },
            PendingRange { low: 22, high: 24 },
        ]
    );
}

#[test]
fn bisection_run_labels_every_hue() {
    let mut s = BisectionSampler::new();
    let mut asked = 0;
    let mut seen = vec![false; 360];
    while let Some(h) = s.get_current_target() {
        assert!(h < 360);
        assert!(!seen[h]);
        seen[h] = true;
        let before = s.get_profile();
        s.submit_judgment(truth(h));
        asked += 1;
        assert!(asked <= 360);
        let after = s.get_profile();
        for k in 0..360 {
            if before[k].1.is_some() {
                assert_eq!(after[k], before[k]);
            }
        }
        assert_eq!(after[h].1, Some(truth(h)));
    }
    assert_eq!(asked, 360);
    assert!(s.is_complete());
    assert!(s.pending_ranges().is_empty());
    let p = s.get_profile();
    assert_eq!(p.len(), 360);
    for (h, slot) in p.iter().enumerate() {
        assert_eq!(*slot, (h, Some(truth(h))));
    }
}

#[test]
fn bisection_ignores_judgment_without_target() {
    let mut s = BisectionSampler::new();
    while s.get_current_target().is_some() {
        s.submit_judgment(Color::Green);
    }
    let before = s.get_profile();
    assert_eq!(s.submit_judgment(Color::Red), None);
    assert_eq!(s.get_current_target(), None);
    assert_eq!(s.get_profile(), before);
    assert!(s.pending_ranges().is_empty());
}
