# gamepad-capture

Native gamepad capture for Linux, written in Verus.

`src/` is the verified library:

- `model`, `text`, `sorting`: the data model, text helpers and the stable
  insertion order every sort here follows;
- `identity`: physical and source identities built from kernel evidence;
- `profile`: passive capture-profile detection with the SDL joystick fallback;
- `session`: hotplug reconciliation of discovery snapshots against opened sources;
- `replay`: sanitized fixture manifests and recordings, and a replay provider;
- `hid`: lossless HID item parsing, report layouts, report framing and
  endpoint pairing;
- `linux`: controller classification, device description, frame assembly and
  access decisions for evdev;
- `tester`: the state model behind the tester window;
- `capture_loop`: the decisions of the tester's live capture loop (discovery
  cadence, refused-event count, repaint throttle).

`tests/` exercises the library. `app/` holds what talks to the system: the
evdev provider, the JSON forms of the fixture files, the capture-lab recorder
and the tester window.
