# stampdist

Two libraries in one crate, written in Verus:

- what a Python distribution consists of: its object files, extension modules, libraries, headers
  and standard library, and CPython's `Setup` and `config.c` files;
- the client's side of the Time-Stamp Protocol (RFC 3161): requests, responses, the tokens in them,
  and what is made of a server's reply.

## Layout

- `src/` is the verified library. Its functions state in `requires` and `ensures` what they do, and
  public proof functions state what holds of several of them together.
- `tests/` runs the library, among others on a signed response of a time-stamp server.
- `app/` holds what the library leaves to its surroundings: the filesystem, archives, JSON and HTTP.

## Trust

A few functions of other crates and of the standard library are called through contracts that are
not proved: regular expressions, digests, the identifiers of digest algorithms, random octets, the
encoding of machine integers, the joining of texts, the decoding of UTF-8, white space, and the
quoting of texts. The doc comment of each says what is claimed.

## Paths

In `src/` a path is a text whose parts are separated by slashes. `app/` turns the paths of the
machine into such texts, relative to the directory of the distribution, and back.
