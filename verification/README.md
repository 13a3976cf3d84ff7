# genicam_rs

Building blocks for GenICam cameras with a GigE Vision focus: the GVCP control path, the
GenApi XML description and the node map evaluated over a camera's registers, plus simulated
GigE Vision and USB3 Vision cameras. The library under `src/` is written in Verus: each public
function states what it returns in its contract, and the contracts are proved.

## Layout

- `src/wire.rs`, `src/text.rs`: big- and little-endian numbers, ASCII text, integer parsing.
- `src/xml_model.rs`, `src/builders.rs`, `src/url.rs`: the GenApi declarations, the builders
  that assemble addressing and bitfields, and the URL of the XML file in a camera.
- `src/xml_events.rs`, `src/xml_nodes.rs`, `src/xml_parse.rs`, `src/xml_struct.rs`: reading a
  GenApi XML document into node declarations, one state machine per node kind. The events and
  element texts come from `quick_xml`; the contracts name them as functions of the document and
  of the reads made before, and state the declarations and errors the parsers give for them.
- `src/genapi.rs`, `src/bitops.rs`, `src/nodemap.rs`: the node map: caches, selectors,
  indirect addresses, enumerations, bitfields, invalidation of dependent nodes. The contracts
  of its accessors name the register block each read or write goes to and the bytes handed
  to the transport.
- `src/expr.rs`: SwissKnife formulas: their tokens, their grammar and the variables they name;
  a node map refuses a formula that does not parse or names an undeclared variable.
- `src/gvcp.rs`: GVCP commands and acknowledges, discovery, memory access in blocks, the retry
  policy of control transactions.
- `src/fake_gige.rs`, `src/fake_gvcp.rs`, `src/gvsp.rs`: a simulated GigE Vision camera: its
  register space, its control channel and its stream packets.
- `src/fake_u3v.rs`: a simulated USB3 Vision camera.
- `src/camctl.rs`, `src/service.rs`: decisions of the command-line tool and the camera service.

`app/` holds the command-line front end: sockets, files, floating point feature values
(Float nodes and SwissKnife formulas) and the animated test patterns. `tests/` exercises the library on concrete values.
