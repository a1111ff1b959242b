# async_net_stack_rs

A small user-space network stack with batched packet devices, written in Rust and
proved with Verus.

- `src/` is the library. Every function states what it does in `requires` and
  `ensures`; properties that relate several functions are the public proof functions
  whose names begin with `law_`.
  - `net`: Internet checksums and a stateless responder for ARP, ICMP echo and UDP echo.
  - `transport`: UDP datagrams over IPv4.
  - `device`: the `Device` trait, frame pools and packet buffers, a loopback device, and
    the bookkeeping of the tun, AF_XDP and io_uring backends.
  - `simulation`: a deterministic fabric between simulated devices, with latency,
    losses, partitions and limited broadcast.
  - `api`: pools of UDP endpoints with discovery of services by lease.
- `tests/` runs the library on concrete packets and queues.
- `app/` opens the tunnels, sockets, maps and rings of the operating system, performs
  the system calls that the library asks for, and hands it what came back.

Taken on trust are constants of the host from `libc`, the shared cells and handles of
the standard library through which buffers return to their pools and devices share a
fabric, and `std::hint::black_box` around frames that the kernel writes to.
