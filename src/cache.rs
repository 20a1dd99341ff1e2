//! Per-layer key/value caches and their placement.
use crate::tensor::{device_is_host, tensor_clone, tensor_device, tensor_to_device};
use candle_core::{Device, Error, Tensor};
use vstd::prelude::*;

verus! {

/// The key and value tensors of one layer, with where they live.
pub struct KvPair {
    pub k: Tensor,
    pub v: Tensor,
    /// Whether both tensors are in host memory.
    pub on_host: bool,
}

/// One optional key/value pair per model layer.
pub type LayerCaches = Vec<Option<KvPair>>;

impl KvPair {
    /// Pairs two tensors, recording where the key tensor lives.
    pub fn new(k: Tensor, v: Tensor) -> (r: KvPair)
        ensures
            r.k == k,
            r.v == v,
    {
        let on_host = device_is_host(&tensor_device(&k));
        KvPair { k, v, on_host }
    }
}

/// The cache counts as resident on the compute device when its first layer
/// is populated and not in host memory; a cache without a first layer has no
/// placement yet.
pub open spec fn resident(layers: Seq<Option<KvPair>>) -> bool {
    &&& layers.len() > 0
    &&& layers[0] is Some
    &&& !layers[0]->Some_0.on_host
}

/// Every populated layer of the cache is placed as `on_host` says.
pub open spec fn at_rest(layers: Seq<Option<KvPair>>, on_host: bool) -> bool {
    forall|i: int| 0 <= i < layers.len() && #[trigger] layers[i] is Some ==> layers[i]->Some_0.on_host == on_host
}

/// `b` holds the layers of `a`, each populated one placed as `on_host` says;
/// those already placed so are kept as they are.
pub open spec fn moved(a: Seq<Option<KvPair>>, b: Seq<Option<KvPair>>, on_host: bool) -> bool {
    &&& a.len() == b.len()
    &&& forall|i: int| 0 <= i < a.len() ==> (#[trigger] a[i] is Some <==> b[i] is Some)
    &&& forall|i: int| 0 <= i < b.len() && #[trigger] b[i] is Some ==> b[i]->Some_0.on_host == on_host
    &&& forall|i: int| 0 <= i < a.len() && #[trigger] a[i] is Some && a[i]->Some_0.on_host == on_host ==> b[i] == a[i]
}

/// Copies every populated layer that is not yet placed as `on_host` says to
/// `device`, of which `on_host` says whether it is host memory. Either every
/// such layer moves or the error is returned; with none to move it succeeds.
pub fn layers_to(layers: &LayerCaches, device: &Device, on_host: bool) -> (r: Result<LayerCaches, Error>)
    ensures
        r matches Ok(n) ==> moved(layers@, n@, on_host),
        at_rest(layers@, on_host) ==> (r matches Ok(n) && n@ == layers@),
{
    let mut out: LayerCaches = Vec::new();
    let mut i: usize = 0;
    while i < layers.len()
        invariant
            i <= layers@.len(),
            moved(layers@.subrange(0, i as int), out@, on_host),
            at_rest(layers@, on_host) ==> out@ == layers@.subrange(0, i as int),
        decreases layers@.len() - i,
    {
        match &layers[i] {
            Some(kv) => {
                if kv.on_host == on_host {
                    out.push(Some(KvPair { k: tensor_clone(&kv.k), v: tensor_clone(&kv.v), on_host }));
                } else {
                    let k = match tensor_to_device(&kv.k, device) {
                        Ok(t) => t,
                        Err(e) => return Err(e),
                    };
                    let v = match tensor_to_device(&kv.v, device) {
                        Ok(t) => t,
                        Err(e) => return Err(e),
                    };
                    out.push(Some(KvPair { k, v, on_host }));
                }
            },
            None => {
                out.push(None);
            },
        }
        i += 1;
        assert(layers@.subrange(0, i as int) =~= layers@.subrange(0, i - 1 as int).push(layers@[i - 1]));
    }
    assert(layers@.subrange(0, layers@.len() as int) =~= layers@);
    Ok(out)
}

/// A copy of the layers that shares their tensors.
pub fn clone_layers(layers: &LayerCaches) -> (r: LayerCaches)
    ensures
        r@ == layers@,
{
    let mut out: LayerCaches = Vec::new();
    let mut i: usize = 0;
    while i < layers.len()
        invariant
            i <= layers@.len(),
            out@ == layers@.subrange(0, i as int),
        decreases layers@.len() - i,
    {
        match &layers[i] {
            Some(kv) => {
                out.push(Some(KvPair { k: tensor_clone(&kv.k), v: tensor_clone(&kv.v), on_host: kv.on_host }));
            },
            None => {
                out.push(None);
            },
        }
        i += 1;
        assert(out@ =~= layers@.subrange(0, i as int));
    }
    assert(layers@.subrange(0, layers@.len() as int) =~= layers@);
    out
}

/// The key tensors of the populated layers, in layer order.
pub open spec fn keys_of(layers: Seq<Option<KvPair>>) -> Seq<Tensor>
    decreases layers.len(),
{
    if layers.len() == 0 {
        seq![]
    } else {
        match layers.last() {
            Some(kv) => keys_of(layers.drop_last()).push(kv.k),
            None => keys_of(layers.drop_last()),
        }
    }
}

/// The value tensors of the populated layers, in layer order.
pub open spec fn values_of(layers: Seq<Option<KvPair>>) -> Seq<Tensor>
    decreases layers.len(),
{
    if layers.len() == 0 {
        seq![]
    } else {
        match layers.last() {
            Some(kv) => values_of(layers.drop_last()).push(kv.v),
            None => values_of(layers.drop_last()),
        }
    }
}

/// The key and value tensors of the populated layers, in layer order.
pub fn layer_tensors(layers: &LayerCaches) -> (r: (Vec<Tensor>, Vec<Tensor>))
    ensures
        r.0@ == keys_of(layers@),
        r.1@ == values_of(layers@),
{
    let mut ks: Vec<Tensor> = Vec::new();
    let mut vs: Vec<Tensor> = Vec::new();
    let mut i: usize = 0;
    while i < layers.len()
        invariant
            i <= layers@.len(),
            ks@ == keys_of(layers@.subrange(0, i as int)),
            vs@ == values_of(layers@.subrange(0, i as int)),
        decreases layers@.len() - i,
    {
        let ghost u = layers@.subrange(0, i + 1);
        assert(u.drop_last() =~= layers@.subrange(0, i as int));
        assert(u.last() == layers@[i as int]);
        if let Some(kv) = &layers[i] {
            ks.push(tensor_clone(&kv.k));
            vs.push(tensor_clone(&kv.v));
        }
        i += 1;
    }
    assert(layers@.subrange(0, layers@.len() as int) =~= layers@);
    (ks, vs)
}

/// Whether every populated layer is placed as `on_host` says.
pub fn is_at_rest(layers: &LayerCaches, on_host: bool) -> (r: bool)
    ensures
        r == at_rest(layers@, on_host),
{
    let mut i: usize = 0;
    while i < layers.len()
        invariant
            i <= layers@.len(),
            forall|j: int| 0 <= j < i && #[trigger] layers@[j] is Some ==> layers@[j]->Some_0.on_host == on_host,
        decreases layers@.len() - i,
    {
        match &layers[i] {
            Some(kv) => {
                if kv.on_host != on_host {
                    return false;
                }
            },
            None => {},
        }
        i += 1;
    }
    true
}

/// Whether the cache is resident on the compute device.
pub fn is_resident(layers: &LayerCaches) -> (r: bool)
    ensures
        r == resident(layers@),
{
    if layers.len() == 0 {
        return false;
    }
    match &layers[0] {
        Some(kv) => !kv.on_host,
        None => false,
    }
}

} // verus!
