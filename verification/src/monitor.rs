//! Monitor selection: picking the display region that holds the focused
//! window, from the geometry the platform reports.

use vstd::prelude::*;

verus! {

/// Where the launcher strip goes: an origin and a width.
#[derive(Clone, Copy, PartialEq, Eq, Structural, Debug)]
pub struct MonitorGeometry {
    pub x: i16,
    pub y: i16,
    pub width: u16,
}

/// One display controller's region; disabled outputs report zero size.
#[derive(Clone, Copy, PartialEq, Eq, Structural, Debug)]
pub struct CrtcInfo {
    pub x: i16,
    pub y: i16,
    pub width: u16,
    pub height: u16,
}

/// An enabled region that contains the point.
pub open spec fn crtc_contains(c: CrtcInfo, fx: int, fy: int) -> bool {
    &&& c.width > 0
    &&& c.height > 0
    &&& c.x <= fx < c.x + c.width
    &&& c.y <= fy < c.y + c.height
}

/// An enabled region.
pub open spec fn crtc_valid(c: CrtcInfo) -> bool {
    c.width > 0 && c.height > 0
}

pub open spec fn geom_of(c: CrtcInfo) -> MonitorGeometry {
    MonitorGeometry { x: c.x, y: c.y, width: c.width }
}

/// First region containing the point, walking in platform order.
pub open spec fn first_containing(crtcs: Seq<CrtcInfo>, fx: int, fy: int) -> Option<CrtcInfo>
    decreases crtcs.len(),
{
    if crtcs.len() == 0 {
        None
    } else if crtc_contains(crtcs[0], fx, fy) {
        Some(crtcs[0])
    } else {
        first_containing(crtcs.drop_first(), fx, fy)
    }
}

/// First enabled region.
pub open spec fn first_valid(crtcs: Seq<CrtcInfo>) -> Option<CrtcInfo>
    decreases crtcs.len(),
{
    if crtcs.len() == 0 {
        None
    } else if crtc_valid(crtcs[0]) {
        Some(crtcs[0])
    } else {
        first_valid(crtcs.drop_first())
    }
}

/// The monitor the launcher should occupy: the first region holding the
/// focus point; with no focus point or no such region, the first enabled
/// region; failing everything, the full screen width at the origin.
pub open spec fn pick_monitor_spec(
    focus: Option<(i32, i32)>,
    crtcs: Seq<CrtcInfo>,
    screen_width: u16,
) -> MonitorGeometry {
    let fallback = MonitorGeometry { x: 0, y: 0, width: screen_width };
    match focus {
        None => fallback,
        Some((fx, fy)) => match first_containing(crtcs, fx as int, fy as int) {
            Some(c) => geom_of(c),
            None => match first_valid(crtcs) {
                Some(c) => geom_of(c),
                None => fallback,
            },
        },
    }
}

/// Picks the monitor for the focus point the platform reported.
pub fn pick_monitor(focus: Option<(i32, i32)>, crtcs: &Vec<CrtcInfo>, screen_width: u16) -> (m:
    MonitorGeometry)
    ensures
        m == pick_monitor_spec(focus, crtcs@, screen_width),
{
    let fallback = MonitorGeometry { x: 0, y: 0, width: screen_width };
    let (fx, fy) = match focus {
        None => {
            return fallback;
        },
        Some(p) => p,
    };
    let mut best: Option<MonitorGeometry> = None;
    let mut i: usize = 0;
    proof {
        assert(crtcs@.skip(0) =~= crtcs@);
        assert(crtcs@.subrange(0, 0) =~= Seq::<CrtcInfo>::empty());
    }
    while i < crtcs.len()
        invariant
            i <= crtcs@.len(),
            focus == Some((fx, fy)),
            first_containing(crtcs@, fx as int, fy as int) == first_containing(
                crtcs@.skip(i as int),
                fx as int,
                fy as int,
            ),
            best == match first_valid(crtcs@.subrange(0, i as int)) {
                Some(c) => Some(geom_of(c)),
                None => None::<MonitorGeometry>,
            },
            first_valid(crtcs@) == (if first_valid(crtcs@.subrange(0, i as int)) is Some {
                first_valid(crtcs@.subrange(0, i as int))
            } else {
                first_valid(crtcs@.skip(i as int))
            }),
        decreases crtcs@.len() - i,
    {
        proof {
            assert(crtcs@.skip(i as int)[0] == crtcs@[i as int]);
            assert(crtcs@.skip(i as int).drop_first() =~= crtcs@.skip(i as int + 1));
        }
        let c = crtcs[i];
        if c.width > 0 && c.height > 0 {
            let cx = c.x as i32;
            let cy = c.y as i32;
            let cw = c.width as i32;
            let ch = c.height as i32;
            if fx >= cx && fx < cx + cw && fy >= cy && fy < cy + ch {
                proof {
                    assert(crtc_contains(crtcs@[i as int], fx as int, fy as int));
                    assert(first_containing(crtcs@.skip(i as int), fx as int, fy as int) == Some(
                        crtcs@[i as int],
                    ));
                    assert(c == crtcs@[i as int]);
                    assert(first_containing(crtcs@, fx as int, fy as int) == Some(c));
                    assert(focus == Some((fx, fy)));
                    assert(pick_monitor_spec(focus, crtcs@, screen_width) == geom_of(c));
                }
                return MonitorGeometry { x: c.x, y: c.y, width: c.width };
            }
            if best.is_none() {
                best = Some(MonitorGeometry { x: c.x, y: c.y, width: c.width });
            }
        }
        i = i + 1;
        proof {
            let pre = crtcs@.subrange(0, i - 1);
            let cur = crtcs@.subrange(0, i as int);
            lemma_first_valid_snoc(crtcs@, i as int);
        }
    }
    proof {
        assert(crtcs@.skip(i as int) =~= Seq::<CrtcInfo>::empty());
        assert(crtcs@.subrange(0, i as int) =~= crtcs@);
    }
    match best {
        Some(m) => m,
        None => fallback,
    }
}

/// Extending the prefix by one element extends its first enabled region.
proof fn lemma_first_valid_snoc(crtcs: Seq<CrtcInfo>, i: int)
    requires
        0 < i <= crtcs.len(),
    ensures
        first_valid(crtcs.subrange(0, i)) == (if first_valid(crtcs.subrange(0, i - 1)) is Some {
            first_valid(crtcs.subrange(0, i - 1))
        } else if crtc_valid(crtcs[i - 1]) {
            Some(crtcs[i - 1])
        } else {
            None::<CrtcInfo>
        }),
    decreases i,
{
    let cur = crtcs.subrange(0, i);
    let pre = crtcs.subrange(0, i - 1);
    if i == 1 {
        assert(pre =~= Seq::<CrtcInfo>::empty());
        assert(cur[0] == crtcs[0]);
        if !crtc_valid(crtcs[0]) {
            assert(cur.drop_first() =~= Seq::<CrtcInfo>::empty());
        }
    } else {
        assert(cur[0] == crtcs[0] && pre[0] == crtcs[0]);
        assert(cur.drop_first() =~= crtcs.subrange(1, crtcs.len() as int).subrange(0, i - 1));
        assert(pre.drop_first() =~= crtcs.subrange(1, crtcs.len() as int).subrange(0, i - 2));
        lemma_first_valid_snoc(crtcs.subrange(1, crtcs.len() as int), i - 1);
        assert(crtcs.subrange(1, crtcs.len() as int)[i - 2] == crtcs[i - 1]);
    }
}

} // verus!
