use vstd::prelude::*;

verus! {

/// A key that steers the camera.
#[derive(Clone, Copy, Debug, PartialEq, Eq, Structural)]
pub enum MovementKey {
    Forward,
    Backward,
    Left,
    Right,
    Up,
    Down,
    Fast,
}

/// Which steering keys are held.
#[derive(Clone, Copy, Debug, PartialEq, Eq, Structural)]
pub struct MovementKeys {
    pub forward: bool,
    pub backward: bool,
    pub left: bool,
    pub right: bool,
    pub up: bool,
    pub down: bool,
    pub fast: bool,
}

/// The held keys with `key` set to `pressed`.
pub open spec fn with_key(keys: MovementKeys, key: MovementKey, pressed: bool) -> MovementKeys {
    match key {
        MovementKey::Forward => MovementKeys { forward: pressed, ..keys },
        MovementKey::Backward => MovementKeys { backward: pressed, ..keys },
        MovementKey::Left => MovementKeys { left: pressed, ..keys },
        MovementKey::Right => MovementKeys { right: pressed, ..keys },
        MovementKey::Up => MovementKeys { up: pressed, ..keys },
        MovementKey::Down => MovementKeys { down: pressed, ..keys },
        MovementKey::Fast => MovementKeys { fast: pressed, ..keys },
    }
}

impl MovementKeys {
    /// No key held.
    pub fn new() -> (keys: Self)
        ensures
            keys == (MovementKeys {
                forward: false,
                backward: false,
                left: false,
                right: false,
                up: false,
                down: false,
                fast: false,
            }),
    {
        MovementKeys {
            forward: false,
            backward: false,
            left: false,
            right: false,
            up: false,
            down: false,
            fast: false,
        }
    }

    /// Records a press (`pressed`) or release of a key; keys that do not
    /// steer (`None`) change nothing. Returns whether the key steers.
    pub fn handle_key(&mut self, key: Option<MovementKey>, pressed: bool) -> (handled: bool)
        ensures
            handled == key.is_some(),
            key == Some(MovementKey::Forward) ==> final(self).forward == pressed,
            key == Some(MovementKey::Backward) ==> final(self).backward == pressed,
            key == Some(MovementKey::Left) ==> final(self).left == pressed,
            key == Some(MovementKey::Right) ==> final(self).right == pressed,
            key == Some(MovementKey::Up) ==> final(self).up == pressed,
            key == Some(MovementKey::Down) ==> final(self).down == pressed,
            key == Some(MovementKey::Fast) ==> final(self).fast == pressed,
            match key {
                Some(k) => *final(self) == with_key(*old(self), k, pressed),
                None => *final(self) == *old(self),
            },
    {
        match key {
            Some(MovementKey::Forward) => self.forward = pressed,
            Some(MovementKey::Backward) => self.backward = pressed,
            Some(MovementKey::Left) => self.left = pressed,
            Some(MovementKey::Right) => self.right = pressed,
            Some(MovementKey::Up) => self.up = pressed,
            Some(MovementKey::Down) => self.down = pressed,
            Some(MovementKey::Fast) => self.fast = pressed,
            None => {
                return false;
            },
        }
        true
    }
}

/// Pressing or releasing a key sets exactly the flag of that key: holding
/// Forward, Backward, Left, Right, Up, Down or Fast sets `forward`,
/// `backward`, `left`, `right`, `up`, `down` or `fast` respectively to
/// `pressed`, and every flag of another key keeps its value.
pub proof fn lemma_key_sets_its_own_flag(keys: MovementKeys, key: MovementKey, pressed: bool)
    ensures
        with_key(keys, MovementKey::Forward, pressed).forward == pressed,
        with_key(keys, MovementKey::Backward, pressed).backward == pressed,
        with_key(keys, MovementKey::Left, pressed).left == pressed,
        with_key(keys, MovementKey::Right, pressed).right == pressed,
        with_key(keys, MovementKey::Up, pressed).up == pressed,
        with_key(keys, MovementKey::Down, pressed).down == pressed,
        with_key(keys, MovementKey::Fast, pressed).fast == pressed,
        key != MovementKey::Forward ==> with_key(keys, key, pressed).forward == keys.forward,
        key != MovementKey::Backward ==> with_key(keys, key, pressed).backward == keys.backward,
        key != MovementKey::Left ==> with_key(keys, key, pressed).left == keys.left,
        key != MovementKey::Right ==> with_key(keys, key, pressed).right == keys.right,
        key != MovementKey::Up ==> with_key(keys, key, pressed).up == keys.up,
        key != MovementKey::Down ==> with_key(keys, key, pressed).down == keys.down,
        key != MovementKey::Fast ==> with_key(keys, key, pressed).fast == keys.fast,
{
}

} // verus!
