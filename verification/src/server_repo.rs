use vstd::prelude::*;

verus! {

/// An index into the registry of known game servers.
#[derive(Debug, Clone, Copy, PartialEq, Eq, Structural)]
pub struct ServerId(pub usize);

impl ServerId {
    pub fn new(id: usize) -> (r: ServerId)
        ensures
            r == (ServerId(id)),
    {
        ServerId(id)
    }

    pub fn into_inner(self) -> (r: usize)
        ensures
            r == self.0,
    {
        self.0
    }
}

#[derive(Debug, Clone, PartialEq, Eq)]
pub enum AddGameServerResult {
    CouldNotGetLock,
    ServerAlreadyRegistered,
    ServerAdded,
}

#[derive(Debug, Clone, PartialEq, Eq)]
pub enum GetGameServerError {
    CouldNotGetLock,
    NotFound,
}

/// The registry of known game server addresses; the surrounding service
/// guards it with a lock, and the lock-failure variants above belong to
/// that layer.
pub struct GameServerRepo {
    pub servers: Vec<String>,
}

impl GameServerRepo {
    pub fn new() -> (r: GameServerRepo)
        ensures
            r.servers@.len() == 0,
    {
        GameServerRepo { servers: Vec::new() }
    }

    /// Registers an address once; a second registration is reported, not
    /// repeated.
    pub fn add(&mut self, server_address: &str) -> (r: AddGameServerResult)
        ensures
            (r matches AddGameServerResult::ServerAlreadyRegistered) <==> (exists|i: int|
                0 <= i < old(self).servers@.len() && (#[trigger] old(self).servers@[i])@
                    == server_address@),
            r matches AddGameServerResult::ServerAlreadyRegistered ==> final(self).servers@
                == old(self).servers@,
            r matches AddGameServerResult::ServerAdded ==> final(self).servers@.len()
                == old(self).servers@.len() + 1 && final(self).servers@.last()@
                == server_address@ && final(self).servers@.drop_last() == old(self).servers@,
            !(r matches AddGameServerResult::CouldNotGetLock),
    {
        let n = self.servers.len();
        let wanted = server_address.to_owned();
        for i in 0..n
            invariant
                n == self.servers@.len(),
                wanted@ == server_address@,
                forall|j: int| 0 <= j < i ==> (#[trigger] self.servers@[j])@ != server_address@,
        {
            if self.servers[i] == wanted {
                return AddGameServerResult::ServerAlreadyRegistered;
            }
        }
        self.servers.push(wanted);
        proof {
            assert(self.servers@.drop_last() =~= old(self).servers@);
        }
        AddGameServerResult::ServerAdded
    }

    /// Looks an address up by its identifier.
    pub fn get(&self, server_id: ServerId) -> (r: Result<String, GetGameServerError>)
        ensures
            r is Ok <==> server_id.0 < self.servers@.len(),
            r matches Ok(addr) ==> addr@ == self.servers@[server_id.0 as int]@,
            r matches Err(e) ==> e matches GetGameServerError::NotFound,
    {
        let idx = server_id.into_inner();
        if idx < self.servers.len() {
            Ok(self.servers[idx].clone())
        } else {
            Err(GetGameServerError::NotFound)
        }
    }
}

} // verus!
