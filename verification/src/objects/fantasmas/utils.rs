use std::sync::mpsc::{Receiver, SyncSender};
use vstd::prelude::*;

use crate::laberinto::casillas::Direcciones;

verus! {

#[verifier::external_type_specification]
#[verifier::external_body]
#[verifier::reject_recursive_types(T)]
pub struct ExSyncSender<T>(SyncSender<T>);

#[verifier::external_type_specification]
#[verifier::external_body]
#[verifier::reject_recursive_types(T)]
pub struct ExReceiver<T>(Receiver<T>);

/// `std::sync::mpsc::sync_channel(0)`: a rendezvous channel, returned as its
/// sending and receiving ends. Nothing is claimed of the values.
#[verifier::external_body]
fn canal_de_encuentro<T>() -> (SyncSender<T>, Receiver<T>) {
    std::sync::mpsc::sync_channel(0)
}

/// `SyncSender::clone`: another sending end of the same channel. Nothing is
/// claimed of the value.
#[verifier::external_body]
fn clonar_emisor<T>(emisor: &SyncSender<T>) -> SyncSender<T> {
    emisor.clone()
}

/// `Receiver::try_recv`: the value waiting in the channel, if any; `None` when
/// nothing is waiting or every sending end is gone. What comes back depends on
/// other threads, so nothing is claimed of it.
#[verifier::external_body]
pub(crate) fn intentar_recibir<T>(receptor: &Receiver<T>) -> Option<T> {
    receptor.try_recv().ok()
}

/// Both ends of a rendezvous channel (capacity 0): a send waits until the
/// other side takes the value.
#[derive(Debug)]
#[verifier::reject_recursive_types(T)]
pub struct Chanel<T> {
    sender: SyncSender<T>,
    receiber: Receiver<T>,
}

impl<T> Chanel<T> {
    /// The receiving end held by the channel.
    pub closed spec fn receptor(self) -> Receiver<T> {
        self.receiber
    }

    /// A new rendezvous channel.
    pub fn new() -> Self {
        let (sender, receiber) = canal_de_encuentro();
        Chanel { sender, receiber }
    }

    /// Another sending end of the channel.
    pub fn sender(&self) -> SyncSender<T> {
        clonar_emisor(&self.sender)
    }

    /// The receiving end of the channel.
    pub fn receiber(&self) -> (r: &Receiver<T>)
        ensures
            *r == self.receptor(),
    {
        &self.receiber
    }
}

/// What a ghost is doing: waiting for a route, following one, or standing by.
#[derive(PartialEq, Eq, Structural, Clone, Copy, Debug)]
pub enum State {
    Planning,
    Execute,
    Standby,
}

/// The four ghosts.
#[derive(PartialEq, Eq, Structural, Clone, Copy, Debug)]
pub enum TipoFantasma {
    Rojo,
    Azul,
    Rosa,
    Naranja,
}

impl TipoFantasma {
    /// The first step that the ghost prefers when it chooses among routes.
    pub open spec fn spec_direccion_preferida(self) -> Direcciones {
        match self {
            TipoFantasma::Naranja => Direcciones::Norte,
            TipoFantasma::Rosa => Direcciones::Sur,
            TipoFantasma::Rojo => Direcciones::Este,
            TipoFantasma::Azul => Direcciones::Oeste,
        }
    }

    /// The first step that the ghost prefers when it chooses among routes.
    pub fn direccion_preferida(&self) -> (d: Direcciones)
        ensures
            d == self.spec_direccion_preferida(),
    {
        match self {
            TipoFantasma::Naranja => Direcciones::Norte,
            TipoFantasma::Rosa => Direcciones::Sur,
            TipoFantasma::Rojo => Direcciones::Este,
            TipoFantasma::Azul => Direcciones::Oeste,
        }
    }
}

} // verus!
