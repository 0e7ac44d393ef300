# funny_feed

Programs around an Epson TM-U220 receipt printer, with their logic verified
in Verus.

`src/` is the verified library:

- `graphics` – a 1-bit bitmap and its encoding as `ESC *` column bit-image
  bands (8 dots per band, MSB = top pin, line feed after each band).
- `menu` – greedy word wrapping to the 40-column paper and dotted price
  leaders for the daily lunch menu, and the print job of the whole menu,
  finished off with the mascot's picture.
- `pbm` – reading 1-bit pictures in the plain portable bitmap format (`P1`).
- `form` – decoding of `application/x-www-form-urlencoded` bodies
  (percent escapes, `+` as space, `&`/`=` splitting).
- `vote` – the voting machine's ballot: suggestions and signer taken from
  the form, printed upside down in reverse order.
- `server` – request routing and replies of the print server and the voting
  machine, and the banner's line selection.
- `network` – grouping the addresses of the network interfaces by name, in
  order, and the text report of them.
- `job` – print jobs as sequences of printer operations, bit images among
  them.
- `strings` – character-level helpers (`lines`, `trim`, `split_whitespace`)
  with their specifications, and the two `std` calls the library trusts.

`app/` drives the hardware and the network: it opens the USB printer, serves
HTTP, fetches the menu feed, reads the interfaces, and performs the print jobs
that the library computes.

The print server reads the mascot from `img/mascot.pbm` (a `P1` file); where
that file is missing it prints the menu with an empty picture and logs why.

`tests/` checks the library on concrete inputs.
