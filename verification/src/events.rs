//! What rides along in a session beside the players: bots, world objects,
//! transient visuals, and the queues of hits, launches, kills, shots and
//! explosions.
use vstd::prelude::*;
use crate::wire::{Boom, Player, ShotFx, META_LEN, OBJ_STATE, OBJ_WORDS};
use crate::session::{Session, BOT_ID_BASE, OBJ_RADIUS, ONE};
use crate::session;

verus! {

/// An object that was given no pose: at the origin, upright.
pub open spec fn is_default_object(o: Seq<u32>) -> bool {
    o == Seq::new(
        OBJ_WORDS as nat,
        |i: int|
            if i == 6 {
                ONE
            } else {
                0
            },
    )
}

fn at_most(i: usize, top: usize) -> (r: usize)
    ensures
        r == (if i <= top {
            i
        } else {
            top
        }),
{
    if i <= top {
        i
    } else {
        top
    }
}

impl Session {
    /// Declare how many bots there are; new ones start blank.
    pub fn set_bot_count(&mut self, n: usize)
        requires
            old(self).wf(),
            n <= u32::MAX - BOT_ID_BASE,
        ensures
            final(self).wf(),
            *final(self) == (Session { bots: final(self).bots, ..*old(self) }),
            final(self).bots@.len() == n,
            forall|i: int|
                0 <= i < n && i < old(self).bots@.len() ==> final(self).bots@[i] == old(
                    self,
                ).bots@[i],
            forall|i: int|
                old(self).bots@.len() <= i < n ==> (#[trigger] final(self).bots@[i]).is_blank(),
    {
        if n <= self.bots.len() {
            self.bots.truncate(n);
        } else {
            while self.bots.len() < n
                invariant
                    self.wf(),
                    n <= u32::MAX - BOT_ID_BASE,
                    *self == (Session { bots: self.bots, ..*old(self) }),
                    old(self).bots@.len() <= self.bots@.len() <= n,
                    forall|i: int|
                        0 <= i < old(self).bots@.len() ==> self.bots@[i] == old(self).bots@[i],
                    forall|i: int|
                        old(self).bots@.len() <= i < self.bots@.len() ==> (
                        #[trigger] self.bots@[i]).is_blank(),
                decreases n - self.bots@.len(),
            {
                self.bots.push(Player::spawn());
            }
        }
    }

    pub fn bot_count(&self) -> (r: usize)
        ensures
            r == self.bots@.len(),
    {
        self.bots.len()
    }

    /// Place bot `i`: position and yaw.
    pub fn set_bot(&mut self, i: usize, x: u32, y: u32, z: u32, yaw: u32)
        requires
            old(self).wf(),
        ensures
            final(self).wf(),
            i >= old(self).bots@.len() ==> *final(self) == *old(self),
            i < old(self).bots@.len() ==> {
                let a = old(self).bots@[i as int];
                let b = final(self).bots@[i as int];
                &&& *final(self) == (Session { bots: final(self).bots, ..*old(self) })
                &&& final(self).bots@ == old(self).bots@.update(i as int, b)
                &&& b == (Player { s: b.s, ..a })
                &&& b.s@ == a.s@.update(0, x).update(1, y).update(2, z).update(3, yaw)
            },
    {
        if i < self.bots.len() {
            self.bots[i].s[0] = x;
            self.bots[i].s[1] = y;
            self.bots[i].s[2] = z;
            self.bots[i].s[3] = yaw;
            assert(self.bots@ =~= old(self).bots@.update(i as int, self.bots@[i as int]));
        }
    }

    /// Set a metadata slot of bot `i`.
    pub fn set_bot_meta(&mut self, i: usize, slot: usize, v: u32)
        requires
            old(self).wf(),
        ensures
            final(self).wf(),
            i >= old(self).bots@.len() || slot >= META_LEN ==> *final(self) == *old(self),
            i < old(self).bots@.len() && slot < META_LEN ==> {
                let a = old(self).bots@[i as int];
                let b = final(self).bots@[i as int];
                &&& *final(self) == (Session { bots: final(self).bots, ..*old(self) })
                &&& final(self).bots@ == old(self).bots@.update(i as int, b)
                &&& b == (Player { meta: b.meta, ..a })
                &&& b.meta@ == a.meta@.update(slot as int, v)
            },
    {
        if i < self.bots.len() && slot < META_LEN {
            self.bots[i].meta[slot] = v;
            assert(self.bots@ =~= old(self).bots@.update(i as int, self.bots@[i as int]));
        }
    }

    /// Name bot `i`.
    pub fn set_bot_name(&mut self, i: usize, bytes: &[u8])
        requires
            old(self).wf(),
        ensures
            final(self).wf(),
            i >= old(self).bots@.len() ==> *final(self) == *old(self),
            i < old(self).bots@.len() ==> {
                let a = old(self).bots@[i as int];
                let b = final(self).bots@[i as int];
                &&& *final(self) == (Session { bots: final(self).bots, ..*old(self) })
                &&& final(self).bots@ == old(self).bots@.update(i as int, b)
                &&& b == (Player { name: b.name, ..a })
                &&& session::is_name(b.name@, bytes@)
            },
    {
        if i < self.bots.len() {
            self.bots[i].name = session::padded_name(bytes);
            assert(self.bots@ =~= old(self).bots@.update(i as int, self.bots@[i as int]));
        }
    }

    /// Declare how many world objects there are; new ones start upright at the
    /// origin, with the default size.
    pub fn set_object_count(&mut self, n: usize)
        requires
            old(self).wf(),
        ensures
            final(self).wf(),
            *final(self) == (Session {
                objects: final(self).objects,
                sizes: final(self).sizes,
                ..*old(self)
            }),
            final(self).objects@.len() == n,
            final(self).sizes@.len() == n,
            forall|i: int|
                0 <= i < n && i < old(self).objects@.len() ==> final(self).objects@[i] == old(
                    self,
                ).objects@[i],
            forall|i: int|
                old(self).objects@.len() <= i < n ==> is_default_object(
                    (#[trigger] final(self).objects@[i])@,
                ),
            forall|i: int|
                0 <= i < n && i < old(self).sizes@.len() ==> final(self).sizes@[i] == old(
                    self,
                ).sizes@[i],
            forall|i: int|
                old(self).sizes@.len() <= i < n ==> (#[trigger] final(self).sizes@[i])@
                    == seq![OBJ_RADIUS, 0u32],
    {
        if n <= self.objects.len() {
            self.objects.truncate(n);
        }
        if n <= self.sizes.len() {
            self.sizes.truncate(n);
        }
        while self.objects.len() < n
            invariant
                self.wf(),
                *self == (Session { objects: self.objects, sizes: self.sizes, ..*old(self) }),
                self.objects@.len() <= n,
                n < old(self).objects@.len() ==> self.objects@.len() == n,
                n >= old(self).objects@.len() ==> self.objects@.len() >= old(self).objects@.len(),
                self.sizes@.len() <= n,
                n < old(self).sizes@.len() ==> self.sizes@.len() == n,
                n >= old(self).sizes@.len() ==> self.sizes@.len() == old(self).sizes@.len(),
                forall|i: int|
                    0 <= i < n && i < old(self).objects@.len() ==> self.objects@[i] == old(
                        self,
                    ).objects@[i],
                forall|i: int|
                    old(self).objects@.len() <= i < self.objects@.len() ==> is_default_object(
                        (#[trigger] self.objects@[i])@,
                    ),
                forall|i: int|
                    0 <= i < n && i < old(self).sizes@.len() ==> self.sizes@[i] == old(
                        self,
                    ).sizes@[i],
            decreases n - self.objects@.len(),
        {
            let mut o = [0u32; 15];
            o[6] = ONE;
            assert(o@ =~= Seq::new(
                OBJ_WORDS as nat,
                |i: int|
                    if i == 6 {
                        ONE
                    } else {
                        0
                    },
            ));
            self.objects.push(o);
        }
        while self.sizes.len() < n
            invariant
                self.wf(),
                *self == (Session { objects: self.objects, sizes: self.sizes, ..*old(self) }),
                self.objects@.len() == n,
                self.sizes@.len() <= n,
                n < old(self).sizes@.len() ==> self.sizes@.len() == n,
                n >= old(self).sizes@.len() ==> self.sizes@.len() >= old(self).sizes@.len(),
                forall|i: int|
                    0 <= i < n && i < old(self).objects@.len() ==> self.objects@[i] == old(
                        self,
                    ).objects@[i],
                forall|i: int|
                    old(self).objects@.len() <= i < n ==> is_default_object(
                        (#[trigger] self.objects@[i])@,
                    ),
                forall|i: int|
                    0 <= i < n && i < old(self).sizes@.len() ==> self.sizes@[i] == old(
                        self,
                    ).sizes@[i],
                forall|i: int|
                    old(self).sizes@.len() <= i < self.sizes@.len() ==> (#[trigger] self.sizes@[i])@
                        == seq![OBJ_RADIUS, 0u32],
            decreases n - self.sizes@.len(),
        {
            let z = [OBJ_RADIUS, 0u32];
            assert(z@ =~= seq![OBJ_RADIUS, 0u32]);
            self.sizes.push(z);
        }
    }

    pub fn object_count(&self) -> (r: usize)
        ensures
            r == self.objects@.len(),
    {
        self.objects.len()
    }

    /// Write word `w` of object `i`, where there is such an object.
    fn put_object_word(&mut self, i: usize, w: usize, v: u32)
        requires
            old(self).wf(),
            w < OBJ_WORDS,
        ensures
            final(self).wf(),
            i >= old(self).objects@.len() ==> *final(self) == *old(self),
            i < old(self).objects@.len() ==> {
                let b = final(self).objects@[i as int];
                &&& *final(self) == (Session { objects: final(self).objects, ..*old(self) })
                &&& final(self).objects@ == old(self).objects@.update(i as int, b)
                &&& b@ == old(self).objects@[i as int]@.update(w as int, v)
            },
    {
        if i < self.objects.len() {
            self.objects[i][w] = v;
            assert(self.objects@ =~= old(self).objects@.update(i as int, self.objects@[i as int]));
        }
    }

    /// Move object `i`, leaving its orientation and state alone.
    pub fn set_object(&mut self, i: usize, x: u32, y: u32, z: u32)
        requires
            old(self).wf(),
        ensures
            final(self).wf(),
            i >= old(self).objects@.len() ==> *final(self) == *old(self),
            i < old(self).objects@.len() ==> {
                let b = final(self).objects@[i as int];
                &&& *final(self) == (Session { objects: final(self).objects, ..*old(self) })
                &&& final(self).objects@ == old(self).objects@.update(i as int, b)
                &&& b@ == old(self).objects@[i as int]@.update(0, x).update(1, y).update(2, z)
            },
    {
        self.put_object_word(i, 0, x);
        self.put_object_word(i, 1, y);
        self.put_object_word(i, 2, z);
        assert(i < old(self).objects@.len() ==> self.objects@ =~= old(self).objects@.update(
            i as int,
            self.objects@[i as int],
        ));
    }

    /// Turn object `i` to a quaternion.
    pub fn set_object_rot(&mut self, i: usize, qx: u32, qy: u32, qz: u32, qw: u32)
        requires
            old(self).wf(),
        ensures
            final(self).wf(),
            i >= old(self).objects@.len() ==> *final(self) == *old(self),
            i < old(self).objects@.len() ==> {
                let b = final(self).objects@[i as int];
                &&& *final(self) == (Session { objects: final(self).objects, ..*old(self) })
                &&& final(self).objects@ == old(self).objects@.update(i as int, b)
                &&& b@ == old(self).objects@[i as int]@.update(3, qx).update(4, qy).update(
                    5,
                    qz,
                ).update(6, qw)
            },
    {
        self.put_object_word(i, 3, qx);
        self.put_object_word(i, 4, qy);
        self.put_object_word(i, 5, qz);
        self.put_object_word(i, 6, qw);
        assert(i < old(self).objects@.len() ==> self.objects@ =~= old(self).objects@.update(
            i as int,
            self.objects@[i as int],
        ));
    }

    /// Set a game-defined state slot of object `i`.
    pub fn set_object_state(&mut self, i: usize, slot: usize, v: u32)
        requires
            old(self).wf(),
        ensures
            final(self).wf(),
            i >= old(self).objects@.len() || slot >= OBJ_STATE ==> *final(self) == *old(self),
            i < old(self).objects@.len() && slot < OBJ_STATE ==> {
                let b = final(self).objects@[i as int];
                &&& *final(self) == (Session { objects: final(self).objects, ..*old(self) })
                &&& final(self).objects@ == old(self).objects@.update(i as int, b)
                &&& b@ == old(self).objects@[i as int]@.update(7 + slot, v)
            },
    {
        if slot < OBJ_STATE {
            self.put_object_word(i, 7 + slot, v);
        }
    }

    /// Give object `i` a radius and a half height for hit tests.
    pub fn set_object_size(&mut self, i: usize, radius: u32, half: u32)
        requires
            old(self).wf(),
        ensures
            final(self).wf(),
            i >= old(self).sizes@.len() ==> *final(self) == *old(self),
            i < old(self).sizes@.len() ==> {
                let b = final(self).sizes@[i as int];
                &&& *final(self) == (Session { sizes: final(self).sizes, ..*old(self) })
                &&& final(self).sizes@ == old(self).sizes@.update(i as int, b)
                &&& b@ == seq![radius, half]
            },
    {
        if i < self.sizes.len() {
            let z = [radius, half];
            assert(z@ =~= seq![radius, half]);
            self.sizes[i] = z;
        }
    }

    /// A coordinate of object `i`: axis 0, 1 or 2, anything past that is 2.
    pub fn object_pos(&self, i: usize, axis: usize) -> (r: u32)
        ensures
            r == (if i < self.objects@.len() {
                self.objects@[i as int]@[if axis <= 2 {
                    axis as int
                } else {
                    2
                }]
            } else {
                0
            }),
    {
        if i < self.objects.len() {
            self.objects[i][at_most(axis, 2)]
        } else {
            0
        }
    }

    /// A component of object `i`'s quaternion; the identity where there is none.
    pub fn object_rot(&self, i: usize, comp: usize) -> (r: u32)
        ensures
            r == (if i < self.objects@.len() {
                self.objects@[i as int]@[if comp <= 3 {
                    3 + comp
                } else {
                    6
                }]
            } else if comp >= 3 {
                ONE
            } else {
                0
            }),
    {
        if i < self.objects.len() {
            self.objects[i][3 + at_most(comp, 3)]
        } else if comp >= 3 {
            ONE
        } else {
            0
        }
    }

    /// A state slot of object `i`, 0 where there is none.
    pub fn object_state(&self, i: usize, slot: usize) -> (r: u32)
        ensures
            r == (if i < self.objects@.len() && slot < OBJ_STATE {
                self.objects@[i as int]@[7 + slot]
            } else {
                0
            }),
    {
        if i < self.objects.len() && slot < OBJ_STATE {
            self.objects[i][7 + slot]
        } else {
            0
        }
    }

    /// Declare how many transient visuals there are; new ones start zero.
    pub fn set_fx_count(&mut self, n: usize)
        requires
            old(self).wf(),
        ensures
            final(self).wf(),
            *final(self) == (Session { fx: final(self).fx, ..*old(self) }),
            final(self).fx@.len() == n,
            forall|i: int|
                0 <= i < n && i < old(self).fx@.len() ==> final(self).fx@[i] == old(self).fx@[i],
            forall|i: int|
                old(self).fx@.len() <= i < n ==> (#[trigger] final(self).fx@[i])@ == seq![
                    0u32,
                    0,
                    0,
                    0,
                ],
    {
        if n <= self.fx.len() {
            self.fx.truncate(n);
        } else {
            while self.fx.len() < n
                invariant
                    self.wf(),
                    *self == (Session { fx: self.fx, ..*old(self) }),
                    old(self).fx@.len() <= self.fx@.len() <= n,
                    forall|i: int| 0 <= i < old(self).fx@.len() ==> self.fx@[i] == old(self).fx@[i],
                    forall|i: int|
                        old(self).fx@.len() <= i < self.fx@.len() ==> (#[trigger] self.fx@[i])@
                            == seq![0u32, 0, 0, 0],
                decreases n - self.fx@.len(),
            {
                let f = [0u32; 4];
                assert(f@ =~= seq![0u32, 0, 0, 0]);
                self.fx.push(f);
            }
        }
    }

    /// Write visual `i`: position and kind.
    pub fn set_fx(&mut self, i: usize, x: u32, y: u32, z: u32, kind: u32)
        requires
            old(self).wf(),
        ensures
            final(self).wf(),
            i >= old(self).fx@.len() ==> *final(self) == *old(self),
            i < old(self).fx@.len() ==> {
                let b = final(self).fx@[i as int];
                &&& *final(self) == (Session { fx: final(self).fx, ..*old(self) })
                &&& final(self).fx@ == old(self).fx@.update(i as int, b)
                &&& b@ == seq![x, y, z, kind]
            },
    {
        if i < self.fx.len() {
            let f = [x, y, z, kind];
            assert(f@ =~= seq![x, y, z, kind]);
            self.fx[i] = f;
        }
    }

    pub fn fx_count(&self) -> (r: usize)
        ensures
            r == self.fx@.len(),
    {
        self.fx.len()
    }

    /// A field of visual `i`: x, y, z, kind; anything past that is the kind.
    pub fn fx_field(&self, i: usize, field: usize) -> (r: u32)
        ensures
            r == (if i < self.fx@.len() {
                self.fx@[i as int]@[if field <= 3 {
                    field as int
                } else {
                    3
                }]
            } else {
                0
            }),
    {
        if i < self.fx.len() {
            self.fx[i][at_most(field, 3)]
        } else {
            0
        }
    }

    pub fn server_hit_count(&self) -> (r: usize)
        ensures
            r == self.server_hits@.len(),
    {
        self.server_hits.len()
    }

    pub fn server_hit_shooter(&self, i: usize) -> (r: i64)
        ensures
            r == (if i < self.server_hits@.len() {
                self.server_hits@[i as int].shooter as int
            } else {
                -1
            }),
    {
        if i < self.server_hits.len() {
            self.server_hits[i].shooter as i64
        } else {
            -1
        }
    }

    pub fn server_hit_victim(&self, i: usize) -> (r: i64)
        ensures
            r == (if i < self.server_hits@.len() {
                self.server_hits@[i as int].victim as int
            } else {
                -1
            }),
    {
        if i < self.server_hits.len() {
            self.server_hits[i].victim
        } else {
            -1
        }
    }

    pub fn server_hit_weapon(&self, i: usize) -> (r: i64)
        ensures
            r == (if i < self.server_hits@.len() {
                self.server_hits@[i as int].weapon as int
            } else {
                0
            }),
    {
        if i < self.server_hits.len() {
            self.server_hits[i].weapon as i64
        } else {
            0
        }
    }

    pub fn server_hit_x(&self, i: usize) -> (r: u32)
        ensures
            r == (if i < self.server_hits@.len() {
                self.server_hits@[i as int].point@[0]
            } else {
                0
            }),
    {
        if i < self.server_hits.len() {
            self.server_hits[i].point[0]
        } else {
            0
        }
    }

    pub fn server_hit_y(&self, i: usize) -> (r: u32)
        ensures
            r == (if i < self.server_hits@.len() {
                self.server_hits@[i as int].point@[1]
            } else {
                0
            }),
    {
        if i < self.server_hits.len() {
            self.server_hits[i].point[1]
        } else {
            0
        }
    }

    pub fn server_hit_z(&self, i: usize) -> (r: u32)
        ensures
            r == (if i < self.server_hits@.len() {
                self.server_hits@[i as int].point@[2]
            } else {
                0
            }),
    {
        if i < self.server_hits.len() {
            self.server_hits[i].point[2]
        } else {
            0
        }
    }

    pub fn clear_server_hits(&mut self)
        requires
            old(self).wf(),
        ensures
            final(self).wf(),
            *final(self) == (Session { server_hits: final(self).server_hits, ..*old(self) }),
            final(self).server_hits@.len() == 0,
    {
        self.server_hits.clear();
    }

    pub fn server_projectile_count(&self) -> (r: usize)
        ensures
            r == self.server_projectiles@.len(),
    {
        self.server_projectiles.len()
    }

    pub fn server_projectile_shooter(&self, i: usize) -> (r: i64)
        ensures
            r == (if i < self.server_projectiles@.len() {
                self.server_projectiles@[i as int].shooter as int
            } else {
                -1
            }),
    {
        if i < self.server_projectiles.len() {
            self.server_projectiles[i].shooter as i64
        } else {
            -1
        }
    }

    pub fn server_projectile_kind(&self, i: usize) -> (r: i64)
        ensures
            r == (if i < self.server_projectiles@.len() {
                self.server_projectiles@[i as int].kind as int
            } else {
                0
            }),
    {
        if i < self.server_projectiles.len() {
            self.server_projectiles[i].kind as i64
        } else {
            0
        }
    }

    /// A coordinate of where launch `i` started; anything past z is z.
    pub fn server_projectile_origin(&self, i: usize, axis: usize) -> (r: u32)
        ensures
            r == (if i < self.server_projectiles@.len() {
                self.server_projectiles@[i as int].origin@[if axis <= 2 {
                    axis as int
                } else {
                    2
                }]
            } else {
                0
            }),
    {
        if i < self.server_projectiles.len() {
            self.server_projectiles[i].origin[at_most(axis, 2)]
        } else {
            0
        }
    }

    /// A component of launch `i`'s velocity; anything past z is z.
    pub fn server_projectile_vel(&self, i: usize, axis: usize) -> (r: u32)
        ensures
            r == (if i < self.server_projectiles@.len() {
                self.server_projectiles@[i as int].vel@[if axis <= 2 {
                    axis as int
                } else {
                    2
                }]
            } else {
                0
            }),
    {
        if i < self.server_projectiles.len() {
            self.server_projectiles[i].vel[at_most(axis, 2)]
        } else {
            0
        }
    }

    pub fn clear_server_projectiles(&mut self)
        requires
            old(self).wf(),
        ensures
            final(self).wf(),
            *final(self) == (Session {
                server_projectiles: final(self).server_projectiles,
                ..*old(self)
            }),
            final(self).server_projectiles@.len() == 0,
    {
        self.server_projectiles.clear();
    }

    /// Host: announce a kill with the next broadcast.
    pub fn push_kill(&mut self, killer: u32, victim: u32)
        requires
            old(self).wf(),
        ensures
            final(self).wf(),
            *final(self) == (Session { kill_out: final(self).kill_out, ..*old(self) }),
            final(self).kill_out@ == old(self).kill_out@.push((killer, victim)),
    {
        self.kill_out.push((killer, victim));
    }

    pub fn kill_count(&self) -> (r: usize)
        ensures
            r == self.kill_in@.len(),
    {
        self.kill_in.len()
    }

    pub fn kill_killer(&self, i: usize) -> (r: i64)
        ensures
            r == (if i < self.kill_in@.len() {
                self.kill_in@[i as int].0 as int
            } else {
                -1
            }),
    {
        if i < self.kill_in.len() {
            self.kill_in[i].0 as i64
        } else {
            -1
        }
    }

    pub fn kill_victim(&self, i: usize) -> (r: i64)
        ensures
            r == (if i < self.kill_in@.len() {
                self.kill_in@[i as int].1 as int
            } else {
                -1
            }),
    {
        if i < self.kill_in.len() {
            self.kill_in[i].1 as i64
        } else {
            -1
        }
    }

    pub fn clear_kills(&mut self)
        requires
            old(self).wf(),
        ensures
            final(self).wf(),
            *final(self) == (Session { kill_in: final(self).kill_in, ..*old(self) }),
            final(self).kill_in@.len() == 0,
    {
        self.kill_in.clear();
    }

    /// Host: announce a shot with the next flush.
    pub fn push_shot(&mut self, shot: ShotFx)
        requires
            old(self).wf(),
        ensures
            final(self).wf(),
            *final(self) == (Session { shots_out: final(self).shots_out, ..*old(self) }),
            final(self).shots_out@ == old(self).shots_out@.push(shot),
    {
        self.shots_out.push(shot);
    }

    /// The shots to draw: the host's own list, a client's received one.
    pub open spec fn shots_view(self) -> Seq<ShotFx> {
        if self.is_server {
            self.shots_out@
        } else {
            self.shots_in@
        }
    }

    pub fn shot_count(&self) -> (r: usize)
        ensures
            r == self.shots_view().len(),
    {
        if self.is_server {
            self.shots_out.len()
        } else {
            self.shots_in.len()
        }
    }

    /// Shot `i` to draw.
    pub fn shot(&self, i: usize) -> (r: Option<ShotFx>)
        ensures
            r == (if i < self.shots_view().len() {
                Some(self.shots_view()[i as int])
            } else {
                None
            }),
    {
        if self.is_server {
            if i < self.shots_out.len() {
                Some(self.shots_out[i])
            } else {
                None
            }
        } else if i < self.shots_in.len() {
            Some(self.shots_in[i])
        } else {
            None
        }
    }

    pub fn shot_shooter(&self, i: usize) -> (r: i64)
        ensures
            r == (if i < self.shots_view().len() {
                self.shots_view()[i as int].shooter as int
            } else {
                -1
            }),
    {
        match self.shot(i) {
            Some(s) => s.shooter as i64,
            None => -1,
        }
    }

    /// A field of shot `i`: 0..3 origin, 3..6 end; anything past that is the end's z.
    pub fn shot_field(&self, i: usize, field: usize) -> (r: u32)
        ensures
            r == (if i < self.shots_view().len() {
                let s = self.shots_view()[i as int];
                if field < 3 {
                    s.o@[field as int]
                } else if field < 6 {
                    s.e@[field - 3]
                } else {
                    s.e@[2]
                }
            } else {
                0
            }),
    {
        match self.shot(i) {
            Some(s) => if field < 3 {
                s.o[field]
            } else {
                s.e[at_most(field - 3, 2)]
            },
            None => 0,
        }
    }

    pub fn shot_weapon(&self, i: usize) -> (r: i64)
        ensures
            r == (if i < self.shots_view().len() {
                self.shots_view()[i as int].weapon as int
            } else {
                0
            }),
    {
        match self.shot(i) {
            Some(s) => s.weapon as i64,
            None => 0,
        }
    }

    /// Host: announce an explosion with the next flush.
    pub fn push_boom(&mut self, boom: Boom)
        requires
            old(self).wf(),
        ensures
            final(self).wf(),
            *final(self) == (Session { booms_out: final(self).booms_out, ..*old(self) }),
            final(self).booms_out@ == old(self).booms_out@.push(boom),
    {
        self.booms_out.push(boom);
    }

    /// The explosions to draw: the host's own list, a client's received one.
    pub open spec fn booms_view(self) -> Seq<Boom> {
        if self.is_server {
            self.booms_out@
        } else {
            self.booms_in@
        }
    }

    pub fn boom_count(&self) -> (r: usize)
        ensures
            r == self.booms_view().len(),
    {
        if self.is_server {
            self.booms_out.len()
        } else {
            self.booms_in.len()
        }
    }

    /// Explosion `i` to draw.
    pub fn boom(&self, i: usize) -> (r: Option<Boom>)
        ensures
            r == (if i < self.booms_view().len() {
                Some(self.booms_view()[i as int])
            } else {
                None
            }),
    {
        if self.is_server {
            if i < self.booms_out.len() {
                Some(self.booms_out[i])
            } else {
                None
            }
        } else if i < self.booms_in.len() {
            Some(self.booms_in[i])
        } else {
            None
        }
    }

    pub fn boom_source(&self, i: usize) -> (r: i64)
        ensures
            r == (if i < self.booms_view().len() {
                self.booms_view()[i as int].source as int
            } else {
                -1
            }),
    {
        match self.boom(i) {
            Some(b) => b.source as i64,
            None => -1,
        }
    }

    /// A field of explosion `i`: 0..3 its point, anything past that its intensity.
    pub fn boom_field(&self, i: usize, field: usize) -> (r: u32)
        ensures
            r == (if i < self.booms_view().len() {
                let b = self.booms_view()[i as int];
                if field < 3 {
                    b.p@[field as int]
                } else {
                    b.intensity
                }
            } else {
                0
            }),
    {
        match self.boom(i) {
            Some(b) => if field < 3 {
                b.p[field]
            } else {
                b.intensity
            },
            None => 0,
        }
    }
}

/// An object that was given no pose is at the origin, is not turned (the last component of
/// its quaternion is a float's one), and has no state.
pub proof fn law_new_objects_are_at_the_origin(o: Seq<u32>, i: int)
    requires
        is_default_object(o),
    ensures
        o.len() == OBJ_WORDS,
        o[0] == 0 && o[1] == 0 && o[2] == 0,
        o[3] == 0 && o[4] == 0 && o[5] == 0 && o[6] == 0x3f80_0000,
        7 <= i < OBJ_WORDS ==> o[i] == 0,
{
}

/// The host draws the shots and explosions it announces, a client those it was told of.
pub proof fn law_everyone_draws_what_the_host_announced(s: Session)
    ensures
        s.is_server ==> s.shots_view() == s.shots_out@ && s.booms_view() == s.booms_out@,
        !s.is_server ==> s.shots_view() == s.shots_in@ && s.booms_view() == s.booms_in@,
{
}

} // verus!
