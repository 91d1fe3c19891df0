# catten_services

The rules, wire formats and state machines of the Charlotte system services,
written in Verus and proved against their contracts.

* `src/` is the library. Each service has a module that holds what it decides:
  the name service (`ns`, `namemap`, `broker`, `servicemgr`, `grant_client`), storage
  (`nvme`, `virtio`, `block`, `objstore`, `object_requests`, `disk_raft`), the
  network (`netdev`, `tcpip`, `relmsg`, `cluster_ingress`, `cluster_observe`),
  consensus (`raft`), time (`time`), telemetry (`observe`), the console (`uart`),
  record streams (`kafka`, `kafka_service`, `kafka_step`), remote objects (`s3`)
  and the clients that try them out (`probes`). `wire`, `text`, `hash`, `order`
  and `ids` are what they share.
* `tests/` runs the library on concrete values.
* `app/` is the code around it: the kernel's interface, device registers, sockets
  and the loops that carry out what the library decides.

Constants of the kernel's and the peers' protocols are parameters, so the
contracts hold for every choice of them. Functions whose names begin with `law_`
state what holds across several operations.
