use color_profile::color::Color;
use color_profile::interpolation::{
    advance, fill, maybe_fill_or_queue, InterpolationSampler, Target,
};
use color_profile::profile::Profile;
use color_profile::queue::{PendingRange, WorkQueue};

fn truth(h: usize) -> Color {
    if h < 50 {
        Color::Red
    } else if h < 130 {
        Color::Yellow
    } else if h < 250 {
        Color::Cyan
    } else {
        Color::Magenta
    }
}

fn labeled(p: &Profile) -> usize {
    p.all().iter().filter(|slot| slot.1.is_some()).count()
}

#[test]
fn interpolation_starts_at_hue_zero_with_whole_wheel() {
    let s = InterpolationSampler::new();
    assert_eq!(
        s.get_current_target(),
        Some(Target { hue: 0, context: PendingRange { low: 0, high: 360 } })
    );
    assert!(s.pending_ranges().is_empty());
    assert!(!s.is_complete());
}

#[test]
fn interpolation_first_judgment_queues_whole_wheel() {
    let mut s = InterpolationSampler::new();
    let next = s.submit_judgment(Color::Red);
    let expected = Some(Target { hue: 180, context: PendingRange { low: 0, high: 360 } });
    assert_eq!(next, expected);
    assert_eq!(s.get_current_target(), expected);
    assert!(s.pending_ranges().is_empty());
    let p = s.get_profile();
    assert_eq!(p[0], (0, Some(Color::Red)));
    assert_eq!(p.iter().filter(|slot| slot.1.is_some()).count(), 1);
}

#[test]
fn equal_ends_fill_the_range() {
    let mut p = Profile::new();
    let mut q = WorkQueue::new();
    p.set(10, Color::Blue);
    p.set(20, Color::Blue);
    maybe_fill_or_queue(&mut p, &mut q, 10, 20);
    for h in 10..20 {
        assert_eq!(p.get(h), Some(Color::Blue));
    }
    assert_eq!(p.get(20), Some(Color::Blue));
    assert_eq!(p.get(9), None);
    assert_eq!(p.get(21), None);
    assert_eq!(labeled(&p), 11);
    assert!(q.is_empty());
}

#[test]
fn different_ends_queue_the_range() {
    let mut p = Profile::new();
    let mut q = WorkQueue::new();
    p.set(10, Color::Blue);
    p.set(20, Color::Red);
    maybe_fill_or_queue(&mut p, &mut q, 10, 20);
    assert_eq!(labeled(&p), 2);
    assert_eq!(p.get(15), None);
    assert_eq!(q.to_vec(), vec![PendingRange { low: 10, high: 20 }]);
    let next = advance(&mut q);
    assert_eq!(
        next,
        Some(Target { hue: 15, context: PendingRange { low: 10, high: 20 } })
    );
    assert!(q.is_empty());
    assert_eq!(advance(&mut q), None);
}

#[test]
fn unlabeled_end_queues_the_range() {
    let mut p = Profile::new();
    let mut q = WorkQueue::new();
    p.set(10, Color::Blue);
    maybe_fill_or_queue(&mut p, &mut q, 10, 20);
    assert_eq!(labeled(&p), 1);
    assert_eq!(q.to_vec(), vec![PendingRange { low: 10, high: 20 }]);
    let mut q2 = WorkQueue::new();
    let mut p2 = Profile::new();
    maybe_fill_or_queue(&mut p2, &mut q2, 30, 40);
    assert_eq!(labeled(&p2), 0);
    assert_eq!(q2.to_vec(), vec![PendingRange { low: 30, high: 40 }]);
}

#[test]
fn narrow_ranges_are_dropped() {
    let mut p = Profile::new();
    let mut q = WorkQueue::new();
    p.set(10, Color::Blue);
    p.set(11, Color::Red);
    maybe_fill_or_queue(&mut p, &mut q, 10, 11);
    maybe_fill_or_queue(&mut p, &mut q, 10, 10);
    maybe_fill_or_queue(&mut p, &mut q, 0, 0);
    assert!(q.is_empty());
    assert_eq!(labeled(&p), 2);
    assert_eq!(p.get(10), Some(Color::Blue));
    assert_eq!(p.get(11), Some(Color::Red));
}

#[test]
fn whole_wheel_is_queued_not_filled() {
    let mut p = Profile::new();
    let mut q = WorkQueue::new();
    p.set(0, Color::Red);
    maybe_fill_or_queue(&mut p, &mut q, 0, 360);
    assert_eq!(labeled(&p), 1);
    assert_eq!(q.to_vec(), vec![PendingRange { low: 0, high: 360 }]);
}

#[test]
fn fill_reaches_up_to_the_seam() {
    let mut p = Profile::new();
    let mut q = WorkQueue::new();
    p.set(270, Color::Magenta);
    p.set(0, Color::Magenta);
    maybe_fill_or_queue(&mut p, &mut q, 270, 360);
    for h in 270..360 {
        assert_eq!(p.get(h), Some(Color::Magenta));
    }
    assert_eq!(p.get(269), None);
    assert_eq!(p.get(1), None);
    assert_eq!(labeled(&p), 91);
    assert!(q.is_empty());
}

#[test]
fn fill_walks_across_the_seam() {
    let mut p = Profile::new();
    let mut q = WorkQueue::new();
    p.set(350, Color::Cyan);
    p.set(10, Color::Cyan);
    maybe_fill_or_queue(&mut p, &mut q, 350, 370);
    for h in 350..360 {
        assert_eq!(p.get(h), Some(Color::Cyan));
    }
    for h in 0..=10 {
        assert_eq!(p.get(h), Some(Color::Cyan));
    }
    assert_eq!(p.get(349), None);
    assert_eq!(p.get(11), None);
    assert_eq!(labeled(&p), 21);
    assert!(q.is_empty());
}

#[test]
fn fill_writes_the_run_only() {
    let mut p = Profile::new();
    fill(&mut p, 5, 8, Color::Orange);
    assert_eq!(labeled(&p), 3);
    assert_eq!(p.get(4), None);
    assert_eq!(p.get(5), Some(Color::Orange));
    assert_eq!(p.get(7), Some(Color::Orange));
    assert_eq!(p.get(8), None);
    fill(&mut p, 8, 8, Color::Green);
    assert_eq!(labeled(&p), 3);
    fill(&mut p, 358, 362, Color::Green);
    assert_eq!(p.get(358), Some(Color::Green));
    assert_eq!(p.get(359), Some(Color::Green));
    assert_eq!(p.get(0), Some(Color::Green));
    assert_eq!(p.get(1), Some(Color::Green));
    assert_eq!(p.get(2), None);
    assert_eq!(labeled(&p), 7);
    fill(&mut p, 0, 720, Color::Blue);
    assert!(p.is_complete());
    assert_eq!(p.get(5), Some(Color::Blue));
}

#[test]
fn advance_reduces_the_midpoint_to_a_hue() {
    let mut q = WorkQueue::new();
    q.push_back(PendingRange { low: 350, high: 380 });
    assert_eq!(
        advance(&mut q),
        Some(Target { hue: 5, context: PendingRange { low: 350, high: 380 } })
    );
}

#[test]
fn interpolation_second_judgment_equal_fills_everything() {
    let mut s = InterpolationSampler::new();
    s.submit_judgment(Color::Green);
    let next = s.submit_judgment(Color::Green);
    assert_eq!(next, None);
    assert!(s.is_complete());
    let p = s.get_profile();
    for (h, slot) in p.iter().enumerate() {
        assert_eq!(*slot, (h, Some(Color::Green)));
    }
}

#[test]
fn interpolation_second_judgment_different_queues_both_halves() {
    let mut s = InterpolationSampler::new();
    s.submit_judgment(Color::Red);
    let next = s.submit_judgment(Color::Cyan);
    assert_eq!(
        next,
        Some(Target { hue: 90, context: PendingRange { low: 0, high: 180 } })
    );
    assert_eq!(s.pending_ranges(), vec![PendingRange { low: 180, high: 360 }]);
    let next = s.submit_judgment(Color::Red);
    assert_eq!(
        next,
        Some(Target { hue: 270, context: PendingRange { low: 180, high: 360 } })
    );
    assert_eq!(s.pending_ranges(), vec![PendingRange { low: 90, high: 180 }]);
    let p = s.get_profile();
    for h in 0..=90 {
        assert_eq!(p[h].1, Some(Color::Red));
    }
    for h in 91..180 {
        assert_eq!(p[h].1, None);
    }
    assert_eq!(p[180].1, Some(Color::Cyan));
}

#[test]
fn interpolation_run_labels_every_hue() {
    let mut s = InterpolationSampler::new();
    let mut asked = 0;
    let mut direct = vec![false; 360];
    while let Some(t) = s.get_current_target() {
        assert!(t.hue < 360);
        assert!(t.context.low <= t.hue && t.hue < t.context.high);
        let before = s.get_profile();
        assert_eq!(before[t.hue].1, None);
        direct[t.hue] = true;
        s.submit_judgment(truth(t.hue));
        asked += 1;
        assert!(asked <= 360);
        let after = s.get_profile();
        for k in 0..360 {
            if before[k].1.is_some() {
                assert_eq!(after[k], before[k]);
            }
        }
        assert_eq!(after[t.hue].1, Some(truth(t.hue)));
    }
    assert!(s.is_complete());
    assert!(s.pending_ranges().is_empty());
    assert!(asked < 60);
    let p = s.get_profile();
    assert_eq!(p.len(), 360);
    for (h, slot) in p.iter().enumerate() {
        assert_eq!(*slot, (h, Some(truth(h))));
    }
    for h in 0..360 {
        let next = (h + 1) % 360;
        if p[h].1 != p[next].1 {
            assert!(direct[h]);
            assert!(direct[next]);
        }
    }
}

#[test]
fn interpolation_worst_case_asks_every_hue() {
    let mut s = InterpolationSampler::new();
    let mut asked = 0;
    while let Some(t) = s.get_current_target() {
        let c = if t.hue % 2 == 0 { Color::Red } else { Color::Blue };
        s.submit_judgment(c);
        asked += 1;
        assert!(asked <= 360);
    }
    assert!(s.is_complete());
    let p = s.get_profile();
    assert!(p.iter().all(|slot| slot.1.is_some()));
    assert!(asked <= 360);
}

#[test]
fn interpolation_ignores_judgment_without_target() {
    let mut s = InterpolationSampler::new();
    s.submit_judgment(Color::Blue);
    s.submit_judgment(Color::Blue);
    assert_eq!(s.get_current_target(), None);
    let before = s.get_profile();
    assert_eq!(s.submit_judgment(Color::Red), None);
    assert_eq!(s.get_current_target(), None);
    assert_eq!(s.get_profile(), before);
    assert!(s.pending_ranges().is_empty());
}
