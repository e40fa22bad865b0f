//! The cameras that are connected: for each road its speed limit, and how
//! many cameras stand on it. All cameras of one road agree on its limit.

use std::collections::HashMap;
use vstd::prelude::*;

verus! {

broadcast use vstd::std_specs::hash::group_hash_axioms;

/// What is known of a road with cameras: its limit, and their number.
pub struct RoadView {
    pub limit: u16,
    pub cameras: nat,
}

/// The registry of cameras.
pub struct Cameras {
    roads: HashMap<u16, (u16, usize)>,
}

impl View for Cameras {
    type V = Map<u16, RoadView>;

    closed spec fn view(&self) -> Map<u16, RoadView> {
        Map::new(
            |road: u16| self.roads@.contains_key(road),
            |road: u16| RoadView { limit: self.roads@[road].0, cameras: self.roads@[road].1 as nat },
        )
    }
}

/// Why a camera is not taken in.
#[derive(Debug, Clone, Copy, PartialEq, Eq, Structural)]
pub enum CameraError {
    /// The cameras of the road declare another limit.
    LimitConflict,
    /// The road has as many cameras as can be counted.
    TooManyCameras,
}

/// What becomes of a camera that comes to `road` and declares `limit`.
pub open spec fn spec_register(s: Map<u16, RoadView>, road: u16, limit: u16) -> Result<
    Map<u16, RoadView>,
    CameraError,
> {
    if !s.contains_key(road) {
        Ok(s.insert(road, RoadView { limit, cameras: 1 }))
    } else if s[road].limit != limit {
        Err(CameraError::LimitConflict)
    } else if s[road].cameras >= usize::MAX {
        Err(CameraError::TooManyCameras)
    } else {
        Ok(s.insert(road, RoadView { limit, cameras: s[road].cameras + 1 }))
    }
}

/// The registry after a camera of `road` left: the road is forgotten with
/// its last camera.
pub open spec fn spec_release(s: Map<u16, RoadView>, road: u16) -> Map<u16, RoadView> {
    if !s.contains_key(road) {
        s
    } else if s[road].cameras <= 1 {
        s.remove(road)
    } else {
        s.insert(road, RoadView { limit: s[road].limit, cameras: (s[road].cameras - 1) as nat })
    }
}

impl Cameras {
    /// Every road that is known has a camera.
    pub closed spec fn wf(&self) -> bool {
        forall|road: u16| #[trigger] self.roads@.contains_key(road) ==> self.roads@[road].1 > 0
    }

    /// A registry without cameras.
    pub fn new() -> (cameras: Cameras)
        ensures
            cameras.wf(),
            cameras@ == Map::<u16, RoadView>::empty(),
    {
        let cameras = Cameras { roads: HashMap::new() };
        assert(cameras@ =~= Map::<u16, RoadView>::empty());
        cameras
    }

    /// The limit of a road that has a camera.
    pub fn limit(&self, road: u16) -> (limit: Option<u16>)
        ensures
            limit == if self@.contains_key(road) {
                Some(self@[road].limit)
            } else {
                None
            },
    {
        match self.roads.get(&road) {
            Some(entry) => Some(entry.0),
            None => None,
        }
    }

    /// How many cameras stand on a road.
    pub fn count(&self, road: u16) -> (count: usize)
        ensures
            count == if self@.contains_key(road) {
                self@[road].cameras
            } else {
                0
            },
    {
        match self.roads.get(&road) {
            Some(entry) => entry.1,
            None => 0,
        }
    }

    /// Takes in a camera that came to `road` and declares `limit`.
    pub fn register(&mut self, road: u16, limit: u16) -> (r: Result<(), CameraError>)
        requires
            old(self).wf(),
        ensures
            final(self).wf(),
            match spec_register(old(self)@, road, limit) {
                Ok(after) => r is Ok && final(self)@ == after,
                Err(error) => r == Err::<(), CameraError>(error) && final(self)@ == old(self)@,
            },
    {
        let known: Option<(u16, usize)> = match self.roads.get(&road) {
            Some(entry) => Some((entry.0, entry.1)),
            None => None,
        };
        match known {
            None => {
                self.roads.insert(road, (limit, 1));
                assert(self@ =~= old(self)@.insert(road, RoadView { limit, cameras: 1 }));
                Ok(())
            },
            Some((declared, count)) => {
                if declared != limit {
                    Err(CameraError::LimitConflict)
                } else if count == usize::MAX {
                    Err(CameraError::TooManyCameras)
                } else {
                    self.roads.insert(road, (limit, count + 1));
                    assert(self@ =~= old(self)@.insert(
                        road,
                        RoadView { limit, cameras: (count + 1) as nat },
                    ));
                    Ok(())
                }
            },
        }
    }

    /// Lets a camera of `road` go.
    pub fn release(&mut self, road: u16)
        requires
            old(self).wf(),
        ensures
            final(self).wf(),
            final(self)@ == spec_release(old(self)@, road),
    {
        let known: Option<(u16, usize)> = match self.roads.get(&road) {
            Some(entry) => Some((entry.0, entry.1)),
            None => None,
        };
        match known {
            None => {},
            Some((limit, count)) => {
                if count <= 1 {
                    self.roads.remove(&road);
                    assert(self@ =~= old(self)@.remove(road));
                } else {
                    self.roads.insert(road, (limit, count - 1));
                    assert(self@ =~= old(self)@.insert(
                        road,
                        RoadView { limit, cameras: (count - 1) as nat },
                    ));
                }
            },
        }
    }
}

impl Default for Cameras {
    fn default() -> (cameras: Cameras)
        ensures
            cameras.wf(),
            cameras@ == Map::<u16, RoadView>::empty(),
    {
        Cameras::new()
    }
}

/// The place of one camera on its road, held while the camera is
/// connected.
#[derive(Debug)]
pub struct CameraGuard {
    road: u16,
}

impl CameraGuard {
    /// The road of the camera.
    pub closed spec fn road(&self) -> u16 {
        self.road
    }

    /// Takes a place for a camera that came to `road` and declares `limit`.
    pub fn new(cameras: &mut Cameras, road: u16, limit: u16) -> (r: Result<CameraGuard, CameraError>)
        requires
            old(cameras).wf(),
        ensures
            final(cameras).wf(),
            match spec_register(old(cameras)@, road, limit) {
                Ok(after) => r is Ok && r->Ok_0.road() == road && final(cameras)@ == after,
                Err(error) => r is Err && r->Err_0 == error && final(cameras)@ == old(cameras)@,
            },
    {
        match cameras.register(road, limit) {
            Ok(()) => Ok(CameraGuard { road }),
            Err(error) => Err(error),
        }
    }

    /// Gives the place back.
    pub fn release(self, cameras: &mut Cameras)
        requires
            old(cameras).wf(),
        ensures
            final(cameras).wf(),
            final(cameras)@ == spec_release(old(cameras)@, self.road()),
    {
        cameras.release(self.road);
    }
}

/// A camera that came and left again leaves the registry as it was, where
/// the road had no camera or cameras with the same limit.
pub proof fn lemma_register_release(s: Map<u16, RoadView>, road: u16, limit: u16)
    requires
        spec_register(s, road, limit) is Ok,
        s.contains_key(road) ==> s[road].cameras > 0,
    ensures
        spec_release(spec_register(s, road, limit)->Ok_0, road) == s,
{
    let after = spec_register(s, road, limit)->Ok_0;
    assert(spec_release(after, road) =~= s);
}

} // verus!
