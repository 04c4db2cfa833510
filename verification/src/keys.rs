use vstd::prelude::*;

verus! {

/// No key occurs twice.
pub open spec fn no_duplicates(s: Seq<u32>) -> bool {
    forall|i: int, j: int| 0 <= i < j < s.len() ==> s[i] != s[j]
}

/// The held keys after `key` goes down.
pub open spec fn pressed(s: Seq<u32>, key: u32) -> Seq<u32> {
    if s.contains(key) {
        s
    } else {
        s.push(key)
    }
}

/// The held keys after `key` comes up.
pub open spec fn released(s: Seq<u32>, key: u32) -> Seq<u32> {
    match s.index_of_first(key) {
        Some(i) => s.remove(i),
        None => s,
    }
}

/// Pressing a key that is not held and releasing it again leaves the held keys as they
/// were, in the same order.
pub proof fn lemma_press_then_release(s: Seq<u32>, key: u32)
    requires
        !s.contains(key),
    ensures
        released(pressed(s, key), key) == s,
{
    let p = s.push(key);
    assert(p[s.len() as int] == key);
    p.index_of_first_ensures(key);
    let i = p.index_of_first(key).unwrap();
    if i < s.len() {
        assert(p[i] == s[i]);
        assert(s.contains(key));
    }
    assert(p.remove(i) =~= s);
}

/// Pressing a held key changes nothing, nor does releasing a key that is not held; after
/// a press the key is held, after a release it is not.
pub proof fn lemma_press_release_idempotent(s: Seq<u32>, key: u32)
    requires
        no_duplicates(s),
    ensures
        pressed(pressed(s, key), key) == pressed(s, key),
        pressed(s, key).contains(key),
        released(released(s, key), key) == released(s, key),
        !released(s, key).contains(key),
{
    assert(s.push(key)[s.len() as int] == key);
    s.index_of_first_ensures(key);
    match s.index_of_first(key) {
        Some(i) => {
            let r = s.remove(i);
            if r.contains(key) {
                let a = choose|a: int| 0 <= a < r.len() && r[a] == key;
                let a0 = if a < i { a } else { a + 1 };
                assert(s[a0] == key);
                if a0 < i {
                    assert(s[a0] != s[i]);
                } else {
                    assert(s[i] != s[a0]);
                }
            }
            r.index_of_first_ensures(key);
        },
        None => {},
    }
}

/// Pressing a key that is not held puts it after the held keys, which stay as they were;
/// pressing a held key changes nothing.
pub proof fn lemma_press_appends(s: Seq<u32>, key: u32)
    ensures
        !s.contains(key) ==> {
            &&& pressed(s, key).len() == s.len() + 1
            &&& pressed(s, key)[s.len() as int] == key
            &&& forall|j: int| 0 <= j < s.len() ==> #[trigger] pressed(s, key)[j] == s[j]
        },
        s.contains(key) ==> pressed(s, key) == s,
{
}

/// Releasing a held key takes out that key, at its first place, and nothing else: the
/// keys before it stay where they were and the keys after it move up by one. Releasing a
/// key that is not held changes nothing.
pub proof fn lemma_release_removes_only_that_key(s: Seq<u32>, key: u32)
    ensures
        s.contains(key) ==> exists|i: int|
            0 <= i < s.len() && #[trigger] s[i] == key && (forall|j: int| 0 <= j < i ==> s[j] != key)
                && released(s, key).len() == s.len() - 1 && (forall|j: int|
                0 <= j < i ==> #[trigger] released(s, key)[j] == s[j]) && (forall|j: int|
                i <= j < s.len() - 1 ==> #[trigger] released(s, key)[j] == s[j + 1]),
        !s.contains(key) ==> released(s, key) == s,
        no_duplicates(s) ==> forall|x: u32|
            x != key ==> (#[trigger] released(s, key).contains(x) <==> s.contains(x)),
{
    s.index_of_first_ensures(key);
    if s.contains(key) {
        let i = s.index_of_first(key).unwrap();
        let r = s.remove(i);
        assert(s[i] == key);
        assert forall|x: u32| x != key implies (#[trigger] r.contains(x) <==> s.contains(x)) by {
            if r.contains(x) {
                let a = choose|a: int| 0 <= a < r.len() && r[a] == x;
                let a0 = if a < i { a } else { a + 1 };
                assert(s[a0] == x);
            }
            if s.contains(x) {
                let a = choose|a: int| 0 <= a < s.len() && s[a] == x;
                assert(a != i);
                let a1 = if a < i { a } else { a - 1 };
                assert(r[a1] == x);
            }
        }
    }
}

/// The keys that steer the camera.
#[derive(Clone, Copy, PartialEq, Eq, Structural, Debug)]
pub enum CameraKey {
    W,
    A,
    S,
    D,
    Space,
    LShift,
    Up,
    Down,
    Left,
    Right,
}

/// What a held key does to the camera, per frame: move it along its forward, right and
/// up directions, or turn it (pitch, yaw), each by -1, 0 or 1 step.
#[derive(Clone, Copy, PartialEq, Eq, Structural, Debug)]
pub enum CameraAction {
    Move { forward: i8, right: i8, up: i8 },
    Turn { pitch: i8, yaw: i8 },
}

/// The camera action of each key: W, S move forward and back, D, A right and left,
/// LShift up and Space down; Down and Up pitch by plus and minus one step, Right and
/// Left yaw by plus and minus one step.
pub fn key_action(key: CameraKey) -> (r: CameraAction)
    ensures
        r == (match key {
            CameraKey::W => CameraAction::Move { forward: 1, right: 0, up: 0 },
            CameraKey::A => CameraAction::Move { forward: 0, right: -1i8, up: 0 },
            CameraKey::S => CameraAction::Move { forward: -1i8, right: 0, up: 0 },
            CameraKey::D => CameraAction::Move { forward: 0, right: 1, up: 0 },
            CameraKey::Space => CameraAction::Move { forward: 0, right: 0, up: -1i8 },
            CameraKey::LShift => CameraAction::Move { forward: 0, right: 0, up: 1 },
            CameraKey::Down => CameraAction::Turn { pitch: 1, yaw: 0 },
            CameraKey::Up => CameraAction::Turn { pitch: -1i8, yaw: 0 },
            CameraKey::Right => CameraAction::Turn { pitch: 0, yaw: 1 },
            CameraKey::Left => CameraAction::Turn { pitch: 0, yaw: -1i8 },
        }),
{
    match key {
        CameraKey::W => CameraAction::Move { forward: 1, right: 0, up: 0 },
        CameraKey::A => CameraAction::Move { forward: 0, right: -1, up: 0 },
        CameraKey::S => CameraAction::Move { forward: -1, right: 0, up: 0 },
        CameraKey::D => CameraAction::Move { forward: 0, right: 1, up: 0 },
        CameraKey::Space => CameraAction::Move { forward: 0, right: 0, up: -1 },
        CameraKey::LShift => CameraAction::Move { forward: 0, right: 0, up: 1 },
        CameraKey::Down => CameraAction::Turn { pitch: 1, yaw: 0 },
        CameraKey::Up => CameraAction::Turn { pitch: -1, yaw: 0 },
        CameraKey::Right => CameraAction::Turn { pitch: 0, yaw: 1 },
        CameraKey::Left => CameraAction::Turn { pitch: 0, yaw: -1 },
    }
}

/// The keys that are held down, by key code, in the order in which they were pressed.
pub struct PressedKeys {
    keys: Vec<u32>,
}

impl View for PressedKeys {
    type V = Seq<u32>;

    closed spec fn view(&self) -> Seq<u32> {
        self.keys@
    }
}

impl PressedKeys {
    #[verifier::type_invariant]
    spec fn inv(self) -> bool {
        no_duplicates(self.keys@)
    }

    /// No key is held down.
    pub fn new() -> (r: Self)
        ensures
            r@ == Seq::<u32>::empty(),
            no_duplicates(r@),
    {
        PressedKeys { keys: Vec::new() }
    }

    /// Whether the key `key` is held down.
    pub fn contains(&self, key: u32) -> (r: bool)
        ensures
            r == self@.contains(key),
    {
        self.position(key).is_some()
    }

    /// Where `key` stands among the held keys, if it is held.
    pub fn position(&self, key: u32) -> (r: Option<usize>)
        ensures
            match r {
                Some(i) => i < self@.len() && self@[i as int] == key,
                None => !self@.contains(key),
            },
    {
        let mut i: usize = 0;
        while i < self.keys.len()
            invariant
                i <= self.keys@.len(),
                forall|j: int| 0 <= j < i ==> self.keys@[j] != key,
            decreases self.keys@.len() - i,
        {
            if self.keys[i] == key {
                return Some(i);
            }
            i = i + 1;
        }
        None
    }

    /// The key `key` goes down: it is added after the held keys, unless it is held already.
    pub fn press(&mut self, key: u32)
        requires
            old(self)@.len() < usize::MAX,
        ensures
            final(self)@ == pressed(old(self)@, key),
            no_duplicates(final(self)@),
            !old(self)@.contains(key) ==> final(self)@ == old(self)@.push(key),
            old(self)@.contains(key) ==> final(self)@ == old(self)@,
    {
        proof {
            use_type_invariant(&*self);
        }
        if !self.contains(key) {
            let ghost before = self.keys@;
            let mut keys = Vec::new();
            std::mem::swap(&mut keys, &mut self.keys);
            keys.push(key);
            assert(no_duplicates(keys@)) by {
                assert forall|i: int, j: int| 0 <= i < j < keys@.len() implies keys@[i]
                    != keys@[j] by {
                    if j == before.len() {
                        assert(before[i] != key);
                    } else {
                        assert(keys@[i] == before[i] && keys@[j] == before[j]);
                    }
                }
            }
            self.keys = keys;
        }
    }

    /// The key `key` comes up: it is taken out of the held keys, the others keep their
    /// order. Nothing changes when it is not held.
    pub fn release(&mut self, key: u32)
        ensures
            final(self)@ == released(old(self)@, key),
            !final(self)@.contains(key),
            no_duplicates(final(self)@),
            old(self)@.contains(key) ==> final(self)@.len() == old(self)@.len() - 1,
            forall|x: u32| x != key ==> (#[trigger] final(self)@.contains(x) <==> old(self)@.contains(x)),
    {
        proof {
            use_type_invariant(&*self);
            lemma_release_removes_only_that_key(self@, key);
        }
        let ghost before = self.keys@;
        match self.position(key) {
            Some(i) => {
                proof {
                    before.index_of_first_ensures(key);
                    let f = before.index_of_first(key).unwrap();
                    if f != i {
                        if f < i {
                            assert(before[f] != before[i as int]);
                        } else {
                            assert(before[i as int] != before[f]);
                        }
                    }
                }
                let mut keys = Vec::new();
                std::mem::swap(&mut keys, &mut self.keys);
                keys.remove(i);
                assert(keys@ == before.remove(i as int));
                assert(no_duplicates(keys@)) by {
                    assert forall|a: int, b: int| 0 <= a < b < keys@.len() implies keys@[a]
                        != keys@[b] by {
                        let a0 = if a < i { a } else { a + 1 };
                        let b0 = if b < i { b } else { b + 1 };
                        assert(keys@[a] == before[a0] && keys@[b] == before[b0]);
                    }
                }
                assert(!keys@.contains(key)) by {
                    if keys@.contains(key) {
                        let a = choose|a: int| 0 <= a < keys@.len() && keys@[a] == key;
                        let a0 = if a < i { a } else { a + 1 };
                        assert(before[a0] == key);
                        if a0 < i {
                            assert(before[a0] != before[i as int]);
                        } else {
                            assert(before[i as int] != before[a0]);
                        }
                    }
                }
                self.keys = keys;
            },
            None => {
                proof {
                    before.index_of_first_ensures(key);
                }
            },
        }
    }

    /// The held keys, in the order in which they were pressed.
    pub fn keys(&self) -> (r: &Vec<u32>)
        ensures
            r@ == self@,
            no_duplicates(r@),
    {
        proof {
            use_type_invariant(self);
        }
        &self.keys
    }

}

} // verus!
